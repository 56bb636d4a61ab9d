use vstd::prelude::*;
use vstd::string::StringSliceAdditionalSpecFns;

verus! {

// Timestamps are read in the fixed ISO 8601 layout "YYYY-MM-DDTHH:MM:SSZ".

/// Value of the two-digit decimal field starting at `offset`.
pub open spec fn two_digits(b: Seq<u8>, offset: int) -> int {
    (b[offset] - 48) * 10 + (b[offset + 1] - 48)
}

/// Value of the four-digit decimal field starting at `offset`.
pub open spec fn four_digits(b: Seq<u8>, offset: int) -> int {
    (b[offset] - 48) * 1000 + (b[offset + 1] - 48) * 100 + (b[offset + 2] - 48) * 10 + (b[offset
        + 3] - 48)
}

/// Whether the two-byte field at `offset` reads as a number that fits a
/// byte: no byte below the digit zero, and a value of at most 255.
pub open spec fn two_digits_fit(b: Seq<u8>, offset: int) -> bool {
    &&& b[offset] >= 48
    &&& b[offset + 1] >= 48
    &&& two_digits(b, offset) <= 255
}

/// Whether the four-byte field at `offset` reads as a number that fits a
/// `u16`: no byte below the digit zero, and a value of at most 65535.
pub open spec fn four_digits_fit(b: Seq<u8>, offset: int) -> bool {
    &&& b[offset] >= 48
    &&& b[offset + 1] >= 48
    &&& b[offset + 2] >= 48
    &&& b[offset + 3] >= 48
    &&& four_digits(b, offset) <= 65535
}

/// Whether the year, month and day fields of `b` read as numbers that fit
/// their types.
pub open spec fn date_fields_fit(b: Seq<u8>) -> bool {
    &&& b.len() >= 10
    &&& four_digits_fit(b, 0)
    &&& two_digits_fit(b, 5)
    &&& two_digits_fit(b, 8)
}

/// Whether the date, hour and minute fields of `b` read as numbers that fit
/// their types.
pub open spec fn timestamp_fields_fit(b: Seq<u8>) -> bool {
    &&& date_fields_fit(b)
    &&& b.len() >= 16
    &&& two_digits_fit(b, 11)
    &&& two_digits_fit(b, 14)
}

/// Year, month, day, hour and minute fields of a timestamp.
pub open spec fn year_of(b: Seq<u8>) -> int {
    four_digits(b, 0)
}

pub open spec fn month_of(b: Seq<u8>) -> int {
    two_digits(b, 5)
}

pub open spec fn day_of(b: Seq<u8>) -> int {
    two_digits(b, 8)
}

pub open spec fn hour_of(b: Seq<u8>) -> int {
    two_digits(b, 11)
}

pub open spec fn minute_of(b: Seq<u8>) -> int {
    two_digits(b, 14)
}

/// Integer division that rounds toward zero, as Rust's `/` does.
pub open spec fn tdiv(a: int, d: int) -> int {
    if a >= 0 {
        a / d
    } else {
        -((-a) / d)
    }
}

/// Remainder that takes the sign of the dividend, as Rust's `%` does.
pub open spec fn trem(a: int, d: int) -> int {
    a - d * tdiv(a, d)
}

/// Whether year `y` is a leap year in the Gregorian calendar.
pub open spec fn is_leap(y: int) -> bool {
    (y % 4 == 0 && y % 100 != 0) || y % 400 == 0
}

/// Days before the first day of each month in a common year.
pub open spec fn month_days(i: int) -> int {
    if i <= 0 {
        0
    } else if i == 1 {
        31
    } else if i == 2 {
        59
    } else if i == 3 {
        90
    } else if i == 4 {
        120
    } else if i == 5 {
        151
    } else if i == 6 {
        181
    } else if i == 7 {
        212
    } else if i == 8 {
        243
    } else if i == 9 {
        273
    } else if i == 10 {
        304
    } else {
        334
    }
}

/// Number of days from the calendar's origin to the date of `b`
/// (months outside 1..=12 are clamped for the month offset).
pub open spec fn total_days(b: Seq<u8>) -> int {
    let y = year_of(b);
    let m = month_of(b);
    let d = day_of(b);
    let idx = if m - 1 < 0 {
        0
    } else if m - 1 > 11 {
        11
    } else {
        m - 1
    };
    y * 365 + tdiv(y - 1, 4) - tdiv(y - 1, 100) + tdiv(y - 1, 400) + month_days(idx) + (if is_leap(y)
        && m > 2 {
        1int
    } else {
        0int
    }) + (d - 1)
}

/// Number of minutes from the calendar's origin to the timestamp `b`.
pub open spec fn total_minutes(b: Seq<u8>) -> int {
    total_days(b) * 1440 + hour_of(b) * 60 + minute_of(b)
}

/// Reads the two ASCII digits at `offset` as a number.
pub fn parse_u8(b: &[u8], offset: usize) -> (r: u8)
    requires
        offset + 2 <= b.len(),
        two_digits_fit(b@, offset as int),
    ensures
        r == two_digits(b@, offset as int),
{
    (b[offset] - 48u8) * 10 + (b[offset + 1] - 48u8)
}

/// Reads the four ASCII digits at `offset` as a number.
pub fn parse_u16(b: &[u8], offset: usize) -> (r: u16)
    requires
        offset + 4 <= b.len(),
        four_digits_fit(b@, offset as int),
    ensures
        r == four_digits(b@, offset as int),
{
    (b[offset] - 48u8) as u16 * 1000 + (b[offset + 1] - 48u8) as u16 * 100 + (b[offset + 2] - 48u8)
        as u16 * 10 + (b[offset + 3] - 48u8) as u16
}

const MONTH_DAYS: [i64; 12] = [0, 31, 59, 90, 120, 151, 181, 212, 243, 273, 304, 334];

/// Minutes from the calendar's origin to the timestamp `b`.
pub fn to_total_minutes(b: &[u8]) -> (r: i64)
    requires
        timestamp_fields_fit(b@),
    ensures
        r == total_minutes(b@),
{
    let y = parse_u16(b, 0) as i64;
    let m = parse_u8(b, 5) as i64;
    let d = parse_u8(b, 8) as i64;
    let h = parse_u8(b, 11) as i64;
    let min = parse_u8(b, 14) as i64;
    let is_leap = (y % 4 == 0 && y % 100 != 0) || (y % 400 == 0);
    let leap_offset: i64 = if is_leap && m > 2 {
        1
    } else {
        0
    };
    let idx: usize = if m - 1 < 0 {
        0
    } else if m - 1 > 11 {
        11
    } else {
        (m - 1) as usize
    };
    let month_days_table = MONTH_DAYS;
    assert(month_days_table@[idx as int] == month_days(idx as int));
    let total_days = y * 365 + (y - 1) / 4 - (y - 1) / 100 + (y - 1) / 400 + month_days_table[idx]
        + leap_offset + (d - 1);
    total_days * 1440 + h * 60 + min
}


/// Sakamoto's month offsets.
pub open spec fn month_key(i: int) -> int {
    if i == 0 {
        0
    } else if i == 1 {
        3
    } else if i == 2 {
        2
    } else if i == 3 {
        5
    } else if i == 4 {
        0
    } else if i == 5 {
        3
    } else if i == 6 {
        5
    } else if i == 7 {
        1
    } else if i == 8 {
        4
    } else if i == 9 {
        6
    } else if i == 10 {
        2
    } else {
        4
    }
}

/// Day of the week of the date of `b` by Sakamoto's method, Monday = 0 to
/// Sunday = 6 (Rust's rounding toward zero included).
pub open spec fn weekday_index(b: Seq<u8>) -> int {
    let m = month_of(b);
    let y = if m < 3 {
        year_of(b) - 1
    } else {
        year_of(b)
    };
    let dow = trem(
        y + tdiv(y, 4) - tdiv(y, 100) + tdiv(y, 400) + month_key(m - 1) + day_of(b),
        7,
    );
    trem(dow + 6, 7)
}

const MONTH_KEYS: [i32; 12] = [0, 3, 2, 5, 0, 3, 5, 1, 4, 6, 2, 4];

/// Hour of a timestamp.
pub fn hour_of_day(date: &str) -> (r: u8)
    requires
        date.spec_bytes().len() >= 13,
        two_digits_fit(date.spec_bytes(), 11),
    ensures
        r == hour_of(date.spec_bytes()),
{
    parse_u8(date.as_bytes(), 11)
}

/// Day of the week of a timestamp's date, Monday = 0 to Sunday = 6.
pub fn day_of_week_index(date: &str) -> (r: u8)
    requires
        date_fields_fit(date.spec_bytes()),
        1 <= month_of(date.spec_bytes()) <= 12,
    ensures
        r == weekday_index(date.spec_bytes()),
{
    let b = date.as_bytes();
    let y = parse_u16(b, 0) as i32;
    let m = parse_u8(b, 5) as i32;
    let d = parse_u8(b, 8) as i32;
    let t = MONTH_KEYS;
    assert(t@[m - 1] == month_key(m - 1));
    let y = if m < 3 {
        y - 1
    } else {
        y
    };
    let dow = (y + y / 4 - y / 100 + y / 400 + t[(m - 1) as usize] + d) % 7;
    let dow_mon = (dow + 6) % 7;
    dow_mon as u8
}

/// Whole minutes from `from` to `to`, or 0 when `to` is not later.
pub open spec fn minutes_elapsed(from: Seq<u8>, to: Seq<u8>) -> int {
    let diff = total_minutes(to) - total_minutes(from);
    if diff > 0 {
        diff
    } else {
        0
    }
}

/// Whole minutes from timestamp `from` to timestamp `to`, or 0 when `to` is
/// not later than `from`.
pub fn whole_minutes_between(from: &str, to: &str) -> (r: i64)
    requires
        timestamp_fields_fit(from.spec_bytes()),
        timestamp_fields_fit(to.spec_bytes()),
    ensures
        r == minutes_elapsed(from.spec_bytes(), to.spec_bytes()),
{
    let a = to_total_minutes(from.as_bytes());
    let b = to_total_minutes(to.as_bytes());
    let diff = b - a;
    if diff > 0 {
        diff
    } else {
        0
    }
}


proof fn lemma_div_step(y: int, n: int)
    requires
        y >= 1,
        n > 0,
    ensures
        y / n - (y - 1) / n == if y % n == 0 {
            1int
        } else {
            0int
        },
{
    vstd::arithmetic::div_mod::lemma_fundamental_div_mod(y, n);
    vstd::arithmetic::div_mod::lemma_fundamental_div_mod(y - 1, n);
    let q = y / n;
    let r = y % n;
    assert(0 <= r < n);
    if r == 0 {
        assert((q - 1) * n + (n - 1) == n * q - 1) by (nonlinear_arith);
        vstd::arithmetic::div_mod::lemma_fundamental_div_mod_converse(y - 1, n, q - 1, n - 1);
    } else {
        assert(q * n + (r - 1) == n * q + r - 1) by (nonlinear_arith);
        vstd::arithmetic::div_mod::lemma_fundamental_div_mod_converse(y - 1, n, q, r - 1);
    }
}

/// For years from 1 on, the weekday that Sakamoto's method gives follows the
/// day count used for elapsed minutes: one day later is one weekday later,
/// and day 1 of year 1 is a Monday.
pub proof fn lemma_weekday_matches_day_count(b: Seq<u8>)
    requires
        date_fields_fit(b),
        1 <= month_of(b) <= 12,
        year_of(b) >= 1,
    ensures
        weekday_index(b) == (total_days(b) + 6) % 7,
{
    let y = year_of(b);
    let m = month_of(b);
    let d = day_of(b);
    lemma_div_step(y, 4);
    lemma_div_step(y, 100);
    lemma_div_step(y, 400);
    let yp = if m < 3 { y - 1 } else { y };
    let a = yp / 4 - yp / 100 + yp / 400;
    let c = (y - 1) / 4 - (y - 1) / 100 + (y - 1) / 400;
    assert(c >= 0) by {
        assert((y - 1) / 4 >= (y - 1) / 100) by {
            vstd::arithmetic::div_mod::lemma_div_is_ordered_by_denominator(y - 1, 4, 100);
        }
        vstd::arithmetic::div_mod::lemma_div_pos_is_pos(y - 1, 400);
    }
    assert(is_leap(y) == ((y / 4 - (y - 1) / 4) - (y / 100 - (y - 1) / 100) + (y / 400 - (y - 1)
        / 400) == 1)) by {
        vstd::arithmetic::div_mod::lemma_mod_mod(y, 4, 25);
        vstd::arithmetic::div_mod::lemma_mod_mod(y, 100, 4);
        if y % 400 == 0 {
            assert(y % 100 == 0) by {
                vstd::arithmetic::div_mod::lemma_mod_mod(y, 100, 4);
            }
            assert(y % 4 == 0) by {
                vstd::arithmetic::div_mod::lemma_mod_mod(y, 4, 100);
            }
        } else if y % 100 == 0 {
            assert(y % 4 == 0) by {
                vstd::arithmetic::div_mod::lemma_mod_mod(y, 4, 25);
            }
        }
    }
    let sak = yp + a + month_key(m - 1) + d;
    let days = total_days(b);
    assert(sak >= 0);
    // The two counts differ by a multiple of seven.
    let diff: int = if m < 3 {
        if m == 1 { 0 } else { -28 }
    } else if m == 3 {
        -56
    } else if m == 4 {
        -84
    } else if m == 5 {
        -119
    } else if m == 6 {
        -147
    } else if m == 7 {
        -175
    } else if m == 8 {
        -210
    } else if m == 9 {
        -238
    } else if m == 10 {
        -266
    } else if m == 11 {
        -301
    } else {
        -329
    };
    assert(sak == days - 364 * y + diff);
    assert(days >= 0);
    assert(sak % 7 == days % 7) by {
        let k: int = 52 * y - diff / 7;
        assert(diff % 7 == 0);
        assert(days == 7 * k + sak) by {
            assert(diff == 7 * (diff / 7));
        }
        vstd::arithmetic::div_mod::lemma_mod_multiples_vanish(k, sak, 7);
    }
    assert(trem(sak, 7) == sak % 7);
    assert((sak % 7 + 6) % 7 == (days + 6) % 7) by {
        vstd::arithmetic::div_mod::lemma_add_mod_noop(sak, 6, 7);
        vstd::arithmetic::div_mod::lemma_add_mod_noop(days, 6, 7);
        vstd::arithmetic::div_mod::lemma_mod_twice(sak, 7);
        vstd::arithmetic::div_mod::lemma_mod_twice(days, 7);
    }
}


/// Leap days counted up to year `y` grow by one exactly in leap years.
proof fn lemma_leap_step(y: int)
    requires
        y >= 1,
    ensures
        (y / 4 - (y - 1) / 4) - (y / 100 - (y - 1) / 100) + (y / 400 - (y - 1) / 400) == if is_leap(y) {
            1int
        } else {
            0int
        },
{
    lemma_div_step(y, 4);
    lemma_div_step(y, 100);
    lemma_div_step(y, 400);
    vstd::arithmetic::div_mod::lemma_mod_mod(y, 4, 25);
    vstd::arithmetic::div_mod::lemma_mod_mod(y, 100, 4);
    if y % 400 == 0 {
        vstd::arithmetic::div_mod::lemma_mod_mod(y, 4, 100);
    }
}

/// Number of days of month `m` of year `y` in the Gregorian calendar.
pub open spec fn days_in_month(y: int, m: int) -> int {
    if m == 2 {
        if is_leap(y) {
            29
        } else {
            28
        }
    } else if m == 4 || m == 6 || m == 9 || m == 11 {
        30
    } else {
        31
    }
}

/// Whether year `y`, month `m` and day `d` name a date of the proleptic
/// Gregorian calendar from year 1 on.
pub open spec fn valid_date(y: int, m: int, d: int) -> bool {
    &&& y >= 1
    &&& 1 <= m <= 12
    &&& 1 <= d <= days_in_month(y, m)
}

/// The calendar date after year `y`, month `m`, day `d`.
pub open spec fn next_day(y: int, m: int, d: int) -> (int, int, int) {
    if d < days_in_month(y, m) {
        (y, m, d + 1)
    } else if m < 12 {
        (y, m + 1, 1)
    } else {
        (y + 1, 1, 1)
    }
}

/// The day count of a date, as `total_days` reads it from a timestamp.
pub open spec fn day_number(y: int, m: int, d: int) -> int {
    y * 365 + tdiv(y - 1, 4) - tdiv(y - 1, 100) + tdiv(y - 1, 400) + month_days(m - 1) + (if is_leap(y)
        && m > 2 {
        1int
    } else {
        0int
    }) + (d - 1)
}

/// The day count read from a timestamp is the day count of its date.
pub proof fn lemma_total_days_is_day_number(b: Seq<u8>)
    requires
        1 <= month_of(b) <= 12,
    ensures
        total_days(b) == day_number(year_of(b), month_of(b), day_of(b)),
{
}

/// The day count follows the calendar: the next calendar date, across
/// months, leap days and years, is counted one day later.
pub proof fn lemma_day_number_next(y: int, m: int, d: int)
    requires
        valid_date(y, m, d),
    ensures
        valid_date(next_day(y, m, d).0, next_day(y, m, d).1, next_day(y, m, d).2),
        day_number(next_day(y, m, d).0, next_day(y, m, d).1, next_day(y, m, d).2) == day_number(y, m, d) + 1,
{
    if d == days_in_month(y, m) && m == 12 {
        lemma_leap_step(y);
    }
}

/// Weekday, Monday = 0 to Sunday = 6, of a day count.
pub open spec fn weekday_of_day(n: int) -> int {
    (n + 6) % 7
}

/// The weekday read from a timestamp is the weekday of the proleptic
/// Gregorian calendar: 0001-01-01 is a Monday, and each next calendar date
/// is the next weekday.
pub proof fn lemma_weekday_follows_calendar(b: Seq<u8>)
    requires
        date_fields_fit(b),
        valid_date(year_of(b), month_of(b), day_of(b)),
    ensures
        weekday_index(b) == weekday_of_day(day_number(year_of(b), month_of(b), day_of(b))),
        weekday_of_day(day_number(1, 1, 1)) == 0,
        ({
            let (y2, m2, d2) = next_day(year_of(b), month_of(b), day_of(b));
            weekday_of_day(day_number(y2, m2, d2)) == (weekday_of_day(
                day_number(year_of(b), month_of(b), day_of(b)),
            ) + 1) % 7
        }),
{
    let y = year_of(b);
    let m = month_of(b);
    let d = day_of(b);
    lemma_weekday_matches_day_count(b);
    lemma_day_number_next(y, m, d);
    let n = day_number(y, m, d);
    vstd::arithmetic::div_mod::lemma_add_mod_noop(n + 6, 1, 7);
    vstd::arithmetic::div_mod::lemma_mod_twice(n + 6, 7);
    assert(1int % 7 == 1);
}

/// The minute count of a date and time, as `total_minutes` reads it.
pub open spec fn minute_number(y: int, m: int, d: int, h: int, mi: int) -> int {
    day_number(y, m, d) * 1440 + h * 60 + mi
}

/// The minute after a date and time, rolling over hours, days, months and
/// years.
pub open spec fn next_minute(y: int, m: int, d: int, h: int, mi: int) -> (int, int, int, int, int) {
    if mi < 59 {
        (y, m, d, h, mi + 1)
    } else if h < 23 {
        (y, m, d, h + 1, 0)
    } else {
        let (y2, m2, d2) = next_day(y, m, d);
        (y2, m2, d2, 0, 0)
    }
}

/// The minute count read from a timestamp is the minute count of its date
/// and time, and that count follows the calendar: the next minute, across
/// hours, days, months, leap days and years, is counted one minute later.
/// Elapsed minutes between two timestamps are thus calendar minutes.
pub proof fn lemma_minutes_follow_calendar(b: Seq<u8>)
    requires
        valid_date(year_of(b), month_of(b), day_of(b)),
        0 <= hour_of(b) <= 23,
        0 <= minute_of(b) <= 59,
    ensures
        total_minutes(b) == minute_number(year_of(b), month_of(b), day_of(b), hour_of(b), minute_of(b)),
        ({
            let (y2, m2, d2, h2, mi2) = next_minute(
                year_of(b),
                month_of(b),
                day_of(b),
                hour_of(b),
                minute_of(b),
            );
            &&& valid_date(y2, m2, d2)
            &&& 0 <= h2 <= 23
            &&& 0 <= mi2 <= 59
            &&& minute_number(y2, m2, d2, h2, mi2) == total_minutes(b) + 1
        }),
{
    lemma_day_number_next(year_of(b), month_of(b), day_of(b));
}

/// Whole minutes between two times of the same date: the difference of
/// their hours and minutes in minutes, or 0 when `to` is not later.
pub proof fn lemma_minutes_same_date(from: Seq<u8>, to: Seq<u8>)
    requires
        year_of(from) == year_of(to),
        month_of(from) == month_of(to),
        day_of(from) == day_of(to),
    ensures
        minutes_elapsed(from, to) == if 60 * (hour_of(to) - hour_of(from)) + (minute_of(to) - minute_of(from))
            > 0 {
            60 * (hour_of(to) - hour_of(from)) + (minute_of(to) - minute_of(from))
        } else {
            0
        },
{
    assert(total_days(from) == total_days(to));
}

/// Elapsed minutes add up: from `a` to `c` through a time `b` between them is
/// the minutes from `a` to `b` plus those from `b` to `c`.
pub proof fn lemma_minutes_add(a: Seq<u8>, b: Seq<u8>, c: Seq<u8>)
    requires
        total_minutes(a) <= total_minutes(b) <= total_minutes(c),
    ensures
        minutes_elapsed(a, c) == minutes_elapsed(a, b) + minutes_elapsed(b, c),
{
}

/// One calendar minute later, across hours, days, months, leap days and
/// years, is exactly one whole minute later.
pub proof fn lemma_minutes_next(from: Seq<u8>, to: Seq<u8>)
    requires
        valid_date(year_of(from), month_of(from), day_of(from)),
        0 <= hour_of(from) <= 23,
        0 <= minute_of(from) <= 59,
        (year_of(to), month_of(to), day_of(to), hour_of(to), minute_of(to)) == next_minute(
            year_of(from),
            month_of(from),
            day_of(from),
            hour_of(from),
            minute_of(from),
        ),
    ensures
        minutes_elapsed(from, to) == 1,
        minutes_elapsed(to, from) == 0,
{
    lemma_minutes_follow_calendar(from);
    assert(1 <= month_of(to) <= 12);
    assert(total_minutes(to) == minute_number(year_of(to), month_of(to), day_of(to), hour_of(to), minute_of(to)));
}

/// Digit fields read as decimal numbers: the first digit of a two-digit
/// field is its tens and the second its units, and a four-digit field is its
/// first two digits as hundreds followed by its last two.
pub proof fn lemma_decimal_fields(b: Seq<u8>, offset: int)
    requires
        0 <= offset,
        offset + 4 <= b.len(),
        forall|i: int| offset <= i < offset + 4 ==> 48 <= #[trigger] b[i] <= 57,
    ensures
        0 <= two_digits(b, offset) <= 99,
        two_digits(b, offset) / 10 == b[offset] - 48,
        two_digits(b, offset) % 10 == b[offset + 1] - 48,
        four_digits(b, offset) == 100 * two_digits(b, offset) + two_digits(b, offset + 2),
{
    assert(48 <= b[offset] <= 57 && 48 <= b[offset + 1] <= 57);
    assert(48 <= b[offset + 2] <= 57 && 48 <= b[offset + 3] <= 57);
}

} // verus!
