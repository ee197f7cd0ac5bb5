//! Dates of the Gregorian calendar, and timestamps as text.
use vstd::prelude::*;

use crate::text::{decimal, integer, law_integer_reads_back, push_integer, value};

verus! {

pub open spec fn leap_year(y: int) -> bool {
    y % 4 == 0 && (y % 100 != 0 || y % 400 == 0)
}

/// Days from the first day of year 0 to the first day of year `y`.
pub open spec fn year_start(y: int) -> int {
    365 * y + (y + 3) / 4 - (y + 99) / 100 + (y + 399) / 400
}

pub open spec fn month_length(y: int, m: int) -> int {
    if m == 2 {
        if leap_year(y) {
            29
        } else {
            28
        }
    } else if m == 4 || m == 6 || m == 9 || m == 11 {
        30
    } else {
        31
    }
}

/// Days from the first day of year `y` to the first day of its month `m`.
pub open spec fn month_start(y: int, m: int) -> int
    decreases m,
{
    if m <= 1 {
        0
    } else {
        month_start(y, m - 1) + month_length(y, m - 1)
    }
}

/// Whether there is a day `d` in month `m` of year `y`.
pub open spec fn valid_date(y: int, m: int, d: int) -> bool {
    1 <= m <= 12 && 1 <= d <= month_length(y, m)
}

/// Days from 1970-01-01 to the date.
pub open spec fn day_number(y: int, m: int, d: int) -> int {
    year_start(y) - year_start(1970) + month_start(y, m) + d - 1
}

/// Days from the first of March of year 0 to the first of March of year `y`, for
/// `y` from 0 to 400.
spec fn march_start(y: int) -> int {
    365 * y + y / 4 - y / 100 + y / 400
}

spec fn year_of_era(doe: int) -> int {
    (doe - doe / 1460 + doe / 36524 - doe / 146096) / 365
}

proof fn lemma_year_of_era(doe: int)
    requires
        0 <= doe <= 146096,
    ensures
        0 <= year_of_era(doe) <= 399,
        march_start(year_of_era(doe)) <= doe < march_start(year_of_era(doe) + 1),
{
    // Centuries, spans of four years and years; the last day of the era belongs
    // to the last century, and the last day of a span to its last year.
    let c = if doe == 146096 {
        3
    } else {
        doe / 36524
    };
    let n = doe - 36524 * c;
    let q = if n == 36524 {
        24
    } else {
        n / 1461
    };
    let r = n - 1461 * q;
    let v = if r >= 1095 {
        3
    } else {
        r / 365
    };
    let y = 100 * c + 4 * q + v;
    assert(0 <= c <= 3 && 0 <= n <= 36524 && 0 <= q <= 24 && 0 <= r <= 1460 && 0 <= v <= 3);
    assert(r == 1460 ==> q < 24 || c == 3);
    assert(365 * v <= r && (v < 3 ==> r < 365 * (v + 1)));
    let e = (24 * c + q + r) / 1460;
    assert(doe / 1460 == 25 * c + q + e) by {
        assert(doe == 1460 * (25 * c + q) + (24 * c + q + r));
    }
    assert(doe / 36524 - doe / 146096 == c);
    assert(doe - doe / 1460 + doe / 36524 - doe / 146096 == 365 * y + (r - e - 365 * v));
    assert(0 <= r - e - 365 * v < 365);
    assert(year_of_era(doe) == y);
    assert(march_start(y) == 36524 * c + 1461 * q + 365 * v) by {
        assert(y / 4 == 25 * c + q);
        assert(y / 100 == c);
        assert(y / 400 == 0);
    }
    assert(doe < march_start(y + 1)) by {
        if v < 3 {
            assert((y + 1) / 4 == 25 * c + q);
            assert((y + 1) / 100 == c);
            assert((y + 1) / 400 == 0);
        } else if q < 24 {
            assert((y + 1) / 4 == 25 * c + q + 1);
            assert((y + 1) / 100 == c);
            assert((y + 1) / 400 == 0);
        } else {
            assert((y + 1) / 4 == 25 * c + 25);
            assert((y + 1) / 100 == c + 1);
        }
    }
}

/// Days from the first of March to the first of the month `mp` months later.
spec fn months_from_march(mp: int) -> int {
    (153 * mp + 2) / 5
}

proof fn lemma_march_start(y: int)
    ensures
        year_start(y) == march_start(y) + (if leap_year(y) {
            0int
        } else {
            1
        }),
        year_start(y + 1) == march_start(y) + 366,
        march_start(y + 1) == march_start(y) + (if leap_year(y + 1) {
            366int
        } else {
            365
        }),
{
    lemma_multiples(y);
    lemma_multiples(y + 1);
}

/// The divisors of the leap rule, one inside the other.
proof fn lemma_multiples(y: int)
    ensures
        (y + 3) / 4 == y / 4 + (if y % 4 == 0 {
            0int
        } else {
            1
        }),
        (y + 99) / 100 == y / 100 + (if y % 100 == 0 {
            0int
        } else {
            1
        }),
        (y + 399) / 400 == y / 400 + (if y % 400 == 0 {
            0int
        } else {
            1
        }),
        (y - 1) / 4 == y / 4 - (if y % 4 == 0 {
            1int
        } else {
            0
        }),
        (y - 1) / 100 == y / 100 - (if y % 100 == 0 {
            1int
        } else {
            0
        }),
        (y - 1) / 400 == y / 400 - (if y % 400 == 0 {
            1int
        } else {
            0
        }),
        y % 100 == 0 ==> y % 4 == 0,
        y % 400 == 0 ==> y % 100 == 0,
{
}

proof fn lemma_month_starts(y: int)
    ensures
        month_start(y, 1) == 0,
        month_start(y, 2) == 31,
        ({
            let l = month_length(y, 2);
            &&& month_start(y, 3) == 31 + l
            &&& month_start(y, 4) == 62 + l
            &&& month_start(y, 5) == 92 + l
            &&& month_start(y, 6) == 123 + l
            &&& month_start(y, 7) == 153 + l
            &&& month_start(y, 8) == 184 + l
            &&& month_start(y, 9) == 215 + l
            &&& month_start(y, 10) == 245 + l
            &&& month_start(y, 11) == 276 + l
            &&& month_start(y, 12) == 306 + l
        }),
{
    reveal_with_fuel(month_start, 13);
}

/// The month that a day after the first of March falls in.
proof fn lemma_month_of_day(doy: int)
    requires
        0 <= doy <= 365,
    ensures
        ({
            let mp = (5 * doy + 2) / 153;
            &&& 0 <= mp <= 11
            &&& months_from_march(mp) <= doy < months_from_march(mp + 1)
        }),
{
}

/// The date `doy` days after the first of March of year `y`.
proof fn lemma_from_march(y: int, doy: int)
    requires
        0 <= doy < march_start(y + 1) - march_start(y),
    ensures
        ({
            let mp = (5 * doy + 2) / 153;
            let d = doy - months_from_march(mp) + 1;
            let m = if mp < 10 {
                mp + 3
            } else {
                mp - 9
            };
            let civil = if m <= 2 {
                y + 1
            } else {
                y
            };
            &&& 0 <= mp <= 11
            &&& valid_date(civil, m, d)
            &&& year_start(civil) + month_start(civil, m) + d - 1 == march_start(y) + 60 + doy
        }),
{
    lemma_march_start(y);
    lemma_month_starts(y);
    lemma_month_starts(y + 1);
    lemma_month_of_day(doy);
}

/// Four hundred years hold the same days each time.
proof fn lemma_era(y: int, era: int)
    ensures
        march_start(y + 400 * era) == march_start(y) + 146097 * era,
{
    assert((y + 400 * era) / 4 == y / 4 + 100 * era);
    assert((y + 400 * era) / 100 == y / 100 + 4 * era);
    assert((y + 400 * era) / 400 == y / 400 + era);
}

/// Converts days since 1970-01-01 to (year, month, day).
pub fn days_to_ymd(days: i64) -> (r: (i64, u32, u32))
    requires
        days <= i64::MAX - 719_468,
    ensures
        valid_date(r.0 as int, r.1 as int, r.2 as int),
        day_number(r.0 as int, r.1 as int, r.2 as int) == days,
{
    // The years are counted from the first of March, so that a leap day is the
    // last day of its year.
    let z: i64 = days + 719_468;
    let era: i64 = z.checked_div_euclid(146_097).unwrap();
    let doe: u64 = z.checked_rem_euclid(146_097).unwrap() as u64;
    let yoe: u64 = (doe - doe / 1460 + doe / 36_524 - doe / 146_096) / 365;
    proof {
        assert(z == era * 146_097 + doe);
        lemma_year_of_era(doe as int);
        assert(yoe == year_of_era(doe as int));
    }
    let y: i64 = yoe as i64 + era * 400;
    let doy: u64 = doe - (365 * yoe + yoe / 4 - yoe / 100);
    proof {
        lemma_era(yoe as int, era as int);
        lemma_era(yoe as int + 1, era as int);
        assert(march_start(yoe as int) == 365 * yoe + yoe / 4 - yoe / 100);
        lemma_from_march(y as int, doy as int);
    }
    let mp: u64 = (5 * doy + 2) / 153;
    let d: u32 = (doy - (153 * mp + 2) / 5 + 1) as u32;
    let m: u32 = (if mp < 10 {
        mp + 3
    } else {
        mp - 9
    }) as u32;
    let civil: i64 = if m <= 2 {
        y + 1
    } else {
        y
    };
    (civil, m, d)
}

/// The moment that a stored timestamp stands for, in seconds since 1970: what
/// would lie beyond the year 3000 was stored in milliseconds.
pub open spec fn timestamp_seconds(stored: int) -> int {
    if stored > 32_503_680_000 {
        stored / 1000
    } else {
        stored
    }
}

/// A date and a second of its day as `YYYY-MM-DD HH:MM:SS`.
pub open spec fn iso_text(y: int, m: int, d: int, second: int) -> Seq<char> {
    integer(y, 4) + seq!['-'] + integer(m, 2) + seq!['-'] + integer(d, 2) + seq![' '] + integer(
        second / 3600,
        2,
    ) + seq![':'] + integer((second / 60) % 60, 2) + seq![':'] + integer(second % 60, 2)
}

/// Whether `text` is a stored timestamp in UTC.
pub open spec fn shows_time(stored: int, text: Seq<char>) -> bool {
    let secs = timestamp_seconds(stored);
    exists|y: int, m: int, d: int|
        #![trigger day_number(y, m, d)]
        valid_date(y, m, d) && day_number(y, m, d) == secs / 86_400 && text == iso_text(
            y,
            m,
            d,
            secs % 86_400,
        )
}

/// Renders a stored timestamp in UTC.
///
/// The column holds milliseconds in some rows and seconds in others, so values
/// of millisecond scale are divided.
pub fn format_iso8601(unix_seconds: i64) -> (r: String)
    ensures
        shows_time(unix_seconds as int, r@),
{
    let secs: i64 = if unix_seconds > 32_503_680_000 {
        unix_seconds.checked_div_euclid(1000).unwrap()
    } else {
        unix_seconds
    };
    let days: i64 = secs.checked_div_euclid(86_400).unwrap();
    let tod: i64 = secs.checked_rem_euclid(86_400).unwrap();
    let second: u64 = tod as u64;
    let (y, m, d) = days_to_ymd(days);
    proof {
        reveal_strlit("-");
        reveal_strlit(" ");
        reveal_strlit(":");
    }
    let mut out = String::new();
    push_integer(&mut out, y, 4);
    out.append("-");
    push_integer(&mut out, m as i64, 2);
    out.append("-");
    push_integer(&mut out, d as i64, 2);
    out.append(" ");
    push_integer(&mut out, (second / 3600) as i64, 2);
    out.append(":");
    push_integer(&mut out, ((second / 60) % 60) as i64, 2);
    out.append(":");
    push_integer(&mut out, (second % 60) as i64, 2);
    proof {
        assert(out@ =~= iso_text(y as int, m as int, d as int, tod as int));
        assert(day_number(y as int, m as int, d as int) == secs as int / 86_400);
    }
    out
}

/// A year starts as many days after the one before it as that one has.
pub proof fn law_year_length(y: int)
    ensures
        year_start(y + 1) - year_start(y) == if leap_year(y) {
            366int
        } else {
            365
        },
        year_start(y + 1) - year_start(y) == month_start(y, 12) + month_length(y, 12),
{
    lemma_march_start(y);
    lemma_month_starts(y);
}

proof fn lemma_year_start_ordered(y1: int, y2: int)
    requires
        y1 <= y2,
    ensures
        year_start(y1) <= year_start(y2),
    decreases y2 - y1,
{
    if y1 < y2 {
        law_year_length(y2 - 1);
        lemma_year_start_ordered(y1, y2 - 1);
    }
}

/// Later dates have greater day numbers.
pub proof fn law_dates_in_order(y1: int, m1: int, d1: int, y2: int, m2: int, d2: int)
    requires
        valid_date(y1, m1, d1),
        valid_date(y2, m2, d2),
        y1 < y2 || (y1 == y2 && (m1 < m2 || (m1 == m2 && d1 < d2))),
    ensures
        day_number(y1, m1, d1) < day_number(y2, m2, d2),
{
    lemma_month_starts(y1);
    lemma_month_starts(y2);
    if y1 < y2 {
        law_year_length(y1);
        lemma_year_start_ordered(y1 + 1, y2);
    }
}

/// No two dates fall on the same day.
pub proof fn law_one_date_per_day(y1: int, m1: int, d1: int, y2: int, m2: int, d2: int)
    requires
        valid_date(y1, m1, d1),
        valid_date(y2, m2, d2),
        day_number(y1, m1, d1) == day_number(y2, m2, d2),
    ensures
        y1 == y2 && m1 == m2 && d1 == d2,
{
    if y1 < y2 || (y1 == y2 && (m1 < m2 || (m1 == m2 && d1 < d2))) {
        law_dates_in_order(y1, m1, d1, y2, m2, d2);
    } else if !(y1 == y2 && m1 == m2 && d1 == d2) {
        law_dates_in_order(y2, m2, d2, y1, m1, d1);
    }
}

/// A timestamp has one text.
pub proof fn law_one_text_per_timestamp(stored: int, a: Seq<char>, b: Seq<char>)
    requires
        shows_time(stored, a),
        shows_time(stored, b),
    ensures
        a == b,
{
    let secs = timestamp_seconds(stored);
    let day = secs / 86_400;
    let second = secs % 86_400;
    let (y1, m1, d1) = choose|y: int, m: int, d: int|
        #![trigger day_number(y, m, d)]
        valid_date(y, m, d) && day_number(y, m, d) == day && a == iso_text(y, m, d, second);
    let (y2, m2, d2) = choose|y: int, m: int, d: int|
        #![trigger day_number(y, m, d)]
        valid_date(y, m, d) && day_number(y, m, d) == day && b == iso_text(y, m, d, second);
    law_one_date_per_day(y1, m1, d1, y2, m2, d2);
}

/// The months have their lengths, and a year is a leap year where 4 divides it, but not where
/// 100 does and 400 does not.
pub proof fn law_month_lengths(y: int)
    ensures
        month_length(y, 1) == 31 && month_length(y, 3) == 31 && month_length(y, 4) == 30,
        month_length(y, 5) == 31 && month_length(y, 6) == 30 && month_length(y, 7) == 31,
        month_length(y, 8) == 31 && month_length(y, 9) == 30 && month_length(y, 10) == 31,
        month_length(y, 11) == 30 && month_length(y, 12) == 31,
        month_length(y, 2) == 29 <==> y % 4 == 0 && !(y % 100 == 0 && y % 400 != 0),
        month_length(y, 2) == 28 <==> y % 4 != 0 || (y % 100 == 0 && y % 400 != 0),
{
}

/// Days follow each other: within a month, from the last day of a month to the first of the
/// next, and from the last day of a year to the first of the next. Day 0 is the first of
/// January 1970.
pub proof fn law_days_follow_each_other(y: int, m: int, d: int)
    ensures
        day_number(1970, 1, 1) == 0,
        day_number(y, m, d + 1) == day_number(y, m, d) + 1,
        1 <= m ==> day_number(y, m + 1, 1) == day_number(y, m, month_length(y, m)) + 1,
        day_number(y + 1, 1, 1) == day_number(y, 12, 31) + 1,
        valid_date(y, m, d) <==> 1 <= m <= 12 && 1 <= d <= month_length(y, m),
{
    law_year_length(y);
}

/// A stored timestamp up to the year 3000 is in seconds; a greater one is in milliseconds,
/// which are cut off.
pub proof fn law_milliseconds_are_cut_off(stored: int)
    ensures
        day_number(3000, 1, 1) * 86_400 == 32_503_680_000,
        stored <= 32_503_680_000 ==> timestamp_seconds(stored) == stored,
        stored > 32_503_680_000 ==> 1000 * timestamp_seconds(stored) <= stored < 1000
            * timestamp_seconds(stored) + 1000,
{
}

proof fn lemma_two_digits(n: int)
    requires
        0 <= n < 100,
    ensures
        integer(n, 2).len() == 2,
        value(integer(n, 2)) == n,
{
    law_integer_reads_back(n, 2);
    reveal_with_fuel(decimal, 3);
    assert(decimal(n as nat).len() <= 2);
}

/// The text of a timestamp reads back as the moment that it stands for: the year, of at least
/// four digits, and behind it the rest of the date, and the hours, minutes and seconds of that day,
/// each in its place.
pub proof fn law_time_reads_back(stored: int, text: Seq<char>) -> (y: int)
    requires
        shows_time(stored, text),
    ensures
        ({
            let n = text.len() - 15;
            let (m, d) = (
                value(text.subrange(n + 1, n + 3)),
                value(text.subrange(n + 4, n + 6)),
            );
            let (hour, minute, second) = (
                value(text.subrange(n + 7, n + 9)),
                value(text.subrange(n + 10, n + 12)),
                value(text.subrange(n + 13, n + 15)),
            );
            &&& n >= 4 && text.take(n) == integer(y, 4)
            &&& text[n] == '-' && text[n + 3] == '-' && text[n + 6] == ' '
            &&& text[n + 9] == ':' && text[n + 12] == ':'
            &&& valid_date(y, m, d)
            &&& 0 <= hour < 24 && 0 <= minute < 60 && 0 <= second < 60
            &&& day_number(y, m, d) * 86_400 + hour * 3600 + minute * 60 + second
                == timestamp_seconds(stored)
            &&& n == 4 && text[0] != '-' ==> y == value(text.subrange(0, 4))
        }),
{
    let secs = timestamp_seconds(stored);
    let (day, tod) = (secs / 86_400, secs % 86_400);
    let (y, m, d) = choose|y: int, m: int, d: int|
        #![trigger day_number(y, m, d)]
        valid_date(y, m, d) && day_number(y, m, d) == day && text == iso_text(y, m, d, tod);
    assert(month_length(y, m) <= 31);
    let (hour, minute, second) = (tod / 3600, (tod / 60) % 60, tod % 60);
    lemma_two_digits(m);
    lemma_two_digits(d);
    lemma_two_digits(hour);
    lemma_two_digits(minute);
    lemma_two_digits(second);
    law_integer_reads_back(y, 4);
    let year = integer(y, 4);
    let n = text.len() - 15;
    assert(n == year.len());
    assert(text[0] == year[0]);
    assert(text.take(n) =~= year);
    assert(text.subrange(0, n) =~= year);
    assert(text.subrange(n + 1, n + 3) =~= integer(m, 2));
    assert(text.subrange(n + 4, n + 6) =~= integer(d, 2));
    assert(text.subrange(n + 7, n + 9) =~= integer(hour, 2));
    assert(text.subrange(n + 10, n + 12) =~= integer(minute, 2));
    assert(text.subrange(n + 13, n + 15) =~= integer(second, 2));
    y
}

} // verus!
