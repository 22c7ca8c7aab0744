//! Timestamps such as `2026-03-11T18:45:53Z`, by their bytes.

use vstd::arithmetic::div_mod::{lemma_fundamental_div_mod_converse, lemma_mod_multiples_vanish};
use vstd::prelude::*;
use vstd::slice::slice_subrange;
use vstd::string::*;

verus! {

/// The number in 32 bits, without what overflows.
pub open spec fn wrap32(x: int) -> int {
    x % 0x1_0000_0000
}

/// The number in 64 bits, without what overflows.
pub open spec fn wrap64(x: int) -> int {
    x % 0x1_0000_0000_0000_0000
}

/// An ASCII digit.
pub open spec fn is_digit(b: u8) -> bool {
    48 <= b <= 57
}

/// The number that the digits among the bytes make up; other bytes are passed
/// over.
pub open spec fn number(bytes: Seq<u8>) -> int
    decreases bytes.len(),
{
    if bytes.len() == 0 {
        0
    } else if is_digit(bytes.last()) {
        number(bytes.drop_last()) * 10 + (bytes.last() - 48)
    } else {
        number(bytes.drop_last())
    }
}

/// Reads the digits among the bytes as a number, in 32 bits.
pub fn parse_u32(bytes: &[u8]) -> (r: u32)
    ensures
        r == wrap32(number(bytes@)),
{
    let mut v: u32 = 0;
    let mut i: usize = 0;
    while i < bytes.len()
        invariant
            i <= bytes@.len(),
            v == wrap32(number(bytes@.take(i as int))),
        decreases bytes@.len() - i,
    {
        let b: u8 = bytes[i];
        proof {
            assert(bytes@.take(i + 1).drop_last() =~= bytes@.take(i as int));
            assert(bytes@.take(i + 1).last() == b);
        }
        if b >= 48 && b <= 57 {
            v = ((v as u64 * 10 + (b - 48) as u64) % 0x1_0000_0000) as u32;
        }
        i = i + 1;
    }
    assert(bytes@.take(bytes@.len() as int) =~= bytes@);
    v
}

/// Up to nine bytes make up a number that 32 bits hold; two make up one below
/// 100, and four one below 10000.
pub proof fn law_short_numbers_fit(bytes: Seq<u8>)
    requires
        bytes.len() <= 9,
    ensures
        0 <= number(bytes) <= 999_999_999,
        wrap32(number(bytes)) == number(bytes),
        bytes.len() <= 2 ==> number(bytes) < 100,
        bytes.len() <= 4 ==> number(bytes) < 10000,
{
    lemma_number_bounds(bytes);
}

proof fn lemma_number_bounds(bytes: Seq<u8>)
    requires
        bytes.len() <= 9,
    ensures
        0 <= number(bytes),
        bytes.len() <= 0 ==> number(bytes) <= 0,
        bytes.len() <= 1 ==> number(bytes) <= 9,
        bytes.len() <= 2 ==> number(bytes) <= 99,
        bytes.len() <= 3 ==> number(bytes) <= 999,
        bytes.len() <= 4 ==> number(bytes) <= 9999,
        bytes.len() <= 5 ==> number(bytes) <= 99_999,
        bytes.len() <= 6 ==> number(bytes) <= 999_999,
        bytes.len() <= 7 ==> number(bytes) <= 9_999_999,
        bytes.len() <= 8 ==> number(bytes) <= 99_999_999,
        number(bytes) <= 999_999_999,
    decreases bytes.len(),
{
    if bytes.len() > 0 {
        lemma_number_bounds(bytes.drop_last());
    }
}

/// Shift of the days of the week at the start of a month.
pub open spec fn month_shift(month: int) -> int {
    if month == 1 {
        0
    } else if month == 2 {
        3
    } else if month == 3 {
        2
    } else if month == 4 {
        5
    } else if month == 5 {
        0
    } else if month == 6 {
        3
    } else if month == 7 {
        5
    } else if month == 8 {
        1
    } else if month == 9 {
        4
    } else if month == 10 {
        6
    } else if month == 11 {
        2
    } else {
        4
    }
}

/// Day of the week of a date, Monday as 0: Sakamoto's method, in 32 bits.
pub open spec fn weekday(year: int, month: int, day: int) -> int {
    let y = if month < 3 {
        wrap32(year - 1)
    } else {
        year
    };
    (wrap32(y + y / 4 - y / 100 + y / 400 + month_shift(month) + day) % 7 + 6) % 7
}

/// Day of the week of a date: 0 for Monday to 6 for Sunday.
pub fn day_of_week(year: u32, month: u32, day: u32) -> (r: u32)
    requires
        1 <= month <= 12,
    ensures
        r == weekday(year as int, month as int, day as int),
        r < 7,
{
    let shifts: [u64; 12] = [0, 3, 2, 5, 0, 3, 5, 1, 4, 6, 2, 4];
    let y: u64 = if month >= 3 {
        year as u64
    } else if year == 0 {
        0xffff_ffff
    } else {
        year as u64 - 1
    };
    let shift: u64 = shifts[month as usize - 1];
    assert(shift == month_shift(month as int));
    let sum: u64 = y + y / 4 - y / 100 + y / 400 + shift + day as u64;
    (((sum % 0x1_0000_0000) % 7 + 6) % 7) as u32
}

/// Days from 1970-01-01 to the date, for a year and a month counted from March.
pub open spec fn march_days(y: int, months: int, day: int) -> int {
    let era = y / 400;
    let yoe = y - era * 400;
    era * 146097 + yoe * 365 + yoe / 4 - yoe / 100 + months + day - 1 - 719468
}

/// Days from 1970-01-01 to a date, negative before it.
///
/// A year before the first and months beyond any calendar are read as 64-bit
/// arithmetic leaves them.
pub open spec fn epoch_days(year: int, month: int, day: int) -> int {
    let y = if month <= 2 {
        wrap64(year - 1)
    } else {
        year
    };
    let m = if month <= 2 {
        month + 9
    } else {
        month - 3
    };
    march_days(y, wrap64(153 * m + 2) / 5, day)
}

/// Days from 1970-01-01 to a date, in 64 bits.
pub fn days_since_epoch(year: u64, month: u64, day: u64) -> (r: u64)
    ensures
        r == wrap64(epoch_days(year as int, month as int, day as int)),
{
    let y: u64 = if month > 2 {
        year
    } else if year == 0 {
        u64::MAX
    } else {
        year - 1
    };
    let m: u64 = if month <= 2 {
        month + 9
    } else {
        month - 3
    };
    let months: u64 = ((153 * m as u128 + 2) % 0x1_0000_0000_0000_0000) as u64 / 5;
    let ghost march_year = if month <= 2 {
        wrap64(year - 1)
    } else {
        year as int
    };
    assert(y == march_year);
    let era: u64 = y / 400;
    let yoe: u64 = y - era * 400;
    let days: u128 = era as u128 * 146097 + yoe as u128 * 365 + (yoe / 4) as u128 - (yoe
        / 100) as u128 + months as u128 + day as u128;
    proof {
        assert(months == wrap64(153 * m + 2) / 5);
        assert(epoch_days(year as int, month as int, day as int) == march_days(
            y as int,
            months as int,
            day as int,
        ));
        assert(march_days(y as int, months as int, day as int) == days - 719469);
        lemma_mod_multiples_vanish(1, days - 719469, 0x1_0000_0000_0000_0000);
    }
    ((days + 0x1_0000_0000_0000_0000 - 719469) % 0x1_0000_0000_0000_0000) as u64
}

/// The number in a range of the bytes.
pub open spec fn field(b: Seq<u8>, from: int, to: int) -> int {
    number(b.subrange(from, to))
}

/// Seconds from 1970-01-01 to a timestamp, negative before it; 0 where the
/// timestamp is too short.
pub open spec fn unix_secs(b: Seq<u8>) -> int {
    if b.len() < 19 {
        0
    } else {
        epoch_days(field(b, 0, 4), field(b, 5, 7), field(b, 8, 10)) * 86400 + field(b, 11, 13)
            * 3600 + field(b, 14, 16) * 60 + field(b, 17, 19)
    }
}

/// Reads a field of a timestamp.
fn parse_field(bytes: &[u8], from: usize, to: usize) -> (r: u32)
    requires
        from <= to <= bytes@.len(),
        to - from <= 4,
    ensures
        r == field(bytes@, from as int, to as int),
        r < 10000,
        to - from <= 2 ==> r < 100,
{
    proof {
        law_short_numbers_fit(bytes@.subrange(from as int, to as int));
    }
    parse_u32(slice_subrange(bytes, from, to))
}

/// What overflows the days makes no difference to the seconds.
proof fn lemma_wrapped_days(days: int, rest: int)
    ensures
        wrap64(wrap64(days) * 86400 + rest) == wrap64(days * 86400 + rest),
{
    let k = days / 0x1_0000_0000_0000_0000;
    assert(days == 0x1_0000_0000_0000_0000 * k + wrap64(days));
    let secs = wrap64(days) * 86400 + rest;
    assert(days * 86400 + rest == 0x1_0000_0000_0000_0000 * (86400 * k) + secs);
    lemma_mod_multiples_vanish(86400 * k, secs, 0x1_0000_0000_0000_0000);
}

/// Seconds from 1970-01-01 to a timestamp, in 64 bits.
pub fn parse_unix_secs(s: &str) -> (r: u64)
    ensures
        r == wrap64(unix_secs(s.spec_bytes())),
{
    let bytes: &[u8] = s.as_bytes();
    if bytes.len() < 19 {
        return 0;
    }
    let year: u64 = parse_field(bytes, 0, 4) as u64;
    let month: u64 = parse_field(bytes, 5, 7) as u64;
    let day: u64 = parse_field(bytes, 8, 10) as u64;
    let hour: u64 = parse_field(bytes, 11, 13) as u64;
    let min: u64 = parse_field(bytes, 14, 16) as u64;
    let sec: u64 = parse_field(bytes, 17, 19) as u64;
    let days: u64 = days_since_epoch(year, month, day);
    let secs: u128 = days as u128 * 86400 + (hour * 3600 + min * 60 + sec) as u128;
    proof {
        lemma_wrapped_days(
            epoch_days(year as int, month as int, day as int),
            hour * 3600 + min * 60 + sec,
        );
    }
    (secs % 0x1_0000_0000_0000_0000) as u64
}

/// The timestamp is too short to be read, or its month is one of the calendar.
pub open spec fn has_calendar_month(b: Seq<u8>) -> bool {
    b.len() < 19 || 1 <= field(b, 5, 7) <= 12
}

/// Checks that a timestamp is too short to be read, or that its month is one of
/// the calendar.
pub fn month_is_valid(s: &str) -> (r: bool)
    ensures
        r == has_calendar_month(s.spec_bytes()),
{
    let bytes: &[u8] = s.as_bytes();
    if bytes.len() < 19 {
        return true;
    }
    let month: u32 = parse_field(bytes, 5, 7);
    1 <= month && month <= 12
}

/// Hour of a timestamp; 0 where it is too short.
pub open spec fn hour_of(b: Seq<u8>) -> int {
    if b.len() < 19 {
        0
    } else {
        field(b, 11, 13)
    }
}

/// Day of the week of a timestamp, Monday as 0; 0 where it is too short.
pub open spec fn weekday_of(b: Seq<u8>) -> int {
    if b.len() < 19 {
        0
    } else {
        weekday(field(b, 0, 4), field(b, 5, 7), field(b, 8, 10))
    }
}

/// Hour and day of the week of a timestamp; zeros where it is too short.
pub fn parse_datetime(s: &str) -> (r: (u32, u32))
    requires
        has_calendar_month(s.spec_bytes()),
    ensures
        r.0 == hour_of(s.spec_bytes()),
        r.1 == weekday_of(s.spec_bytes()),
{
    let bytes: &[u8] = s.as_bytes();
    if bytes.len() < 19 {
        return (0, 0);
    }
    let hour: u32 = parse_field(bytes, 11, 13);
    let year: u32 = parse_field(bytes, 0, 4);
    let month: u32 = parse_field(bytes, 5, 7);
    let day: u32 = parse_field(bytes, 8, 10);
    (hour, day_of_week(year, month, day))
}

/// Size of the difference of two numbers of 64 bits, as a signed number: the
/// difference is read in two's complement, and the least such number is its own
/// size.
pub open spec fn wrapped_size(a: int, b: int) -> int {
    let d = wrap64(a - b);
    if d < 0x8000_0000_0000_0000 {
        d
    } else if d == 0x8000_0000_0000_0000 {
        -d
    } else {
        0x1_0000_0000_0000_0000 - d
    }
}

/// Seconds between two timestamps.
pub fn seconds_between(prev: &str, curr: &str) -> (r: i64)
    ensures
        r == wrapped_size(unix_secs(curr.spec_bytes()), unix_secs(prev.spec_bytes())),
{
    let a: u64 = parse_unix_secs(curr);
    let b: u64 = parse_unix_secs(prev);
    let d: u128 = (a as u128 + 0x1_0000_0000_0000_0000 - b as u128) % 0x1_0000_0000_0000_0000;
    if d < 0x8000_0000_0000_0000 {
        d as i64
    } else if d == 0x8000_0000_0000_0000 {
        i64::MIN
    } else {
        (0x1_0000_0000_0000_0000 - d) as i64
    }
}

/// The order of two timestamps does not matter to the seconds between them, and
/// there are none between a timestamp and itself.
pub proof fn law_seconds_between_is_symmetric(a: int, b: int)
    ensures
        wrapped_size(a, b) == wrapped_size(b, a),
        wrapped_size(a, a) == 0,
{
}

/// A year of the calendar in which February has 29 days.
pub open spec fn is_leap(year: int) -> bool {
    year % 4 == 0 && (year % 100 != 0 || year % 400 == 0)
}

/// Number of days of a month.
pub open spec fn month_length(year: int, month: int) -> int {
    if month == 2 {
        if is_leap(year) {
            29
        } else {
            28
        }
    } else if month == 4 || month == 6 || month == 9 || month == 11 {
        30
    } else {
        31
    }
}

/// A date of the calendar, from the first year to year 9999.
pub open spec fn is_date(year: int, month: int, day: int) -> bool {
    1 <= year <= 9999 && 1 <= month <= 12 && 1 <= day <= month_length(year, month)
}

/// The date of the day after.
pub open spec fn next_date(year: int, month: int, day: int) -> (int, int, int) {
    if day < month_length(year, month) {
        (year, month, day + 1)
    } else if month < 12 {
        (year, month + 1, 1)
    } else {
        (year + 1, 1, 1)
    }
}

/// Days before a month, counted from March.
spec fn months_before(month: int) -> int {
    if month == 3 {
        0
    } else if month == 4 {
        31
    } else if month == 5 {
        61
    } else if month == 6 {
        92
    } else if month == 7 {
        122
    } else if month == 8 {
        153
    } else if month == 9 {
        184
    } else if month == 10 {
        214
    } else if month == 11 {
        245
    } else if month == 12 {
        275
    } else if month == 1 {
        306
    } else {
        337
    }
}

/// Number of leap days up to the end of a year.
#[verifier::opaque]
spec fn leap_days(y: int) -> int {
    y / 4 - y / 100 + y / 400
}

proof fn lemma_years(y: int)
    requires
        0 <= y,
    ensures
        march_days(y, 0, 0) == 365 * y + leap_days(y) - 719469,
{
    reveal(leap_days);
    let era = y / 400;
    let yoe = y - era * 400;
    assert(0 <= yoe < 400);
    assert(y == 400 * era + yoe);
    assert(y / 4 == 100 * era + yoe / 4);
    assert(y / 100 == 4 * era + yoe / 100);
}

proof fn lemma_leap_days_step(year: int)
    requires
        1 <= year,
    ensures
        leap_days(year) == leap_days(year - 1) + if is_leap(year) {
            1int
        } else {
            0
        },
{
    reveal(leap_days);
    let y = year - 1;
    assert(year / 4 == y / 4 + if year % 4 == 0 {
        1int
    } else {
        0
    });
    assert(year / 100 == y / 100 + if year % 100 == 0 {
        1int
    } else {
        0
    });
    assert(year / 400 == y / 400 + if year % 400 == 0 {
        1int
    } else {
        0
    });
    assert(year % 100 == 0 ==> year % 4 == 0);
    assert(year % 400 == 0 ==> year % 100 == 0);
}

/// The year to which the months from March on belong.
spec fn march_year(year: int, month: int) -> int {
    if month <= 2 {
        year - 1
    } else {
        year
    }
}

proof fn lemma_epoch_days(year: int, month: int, day: int)
    requires
        1 <= year <= 10000,
        1 <= month <= 12,
    ensures
        epoch_days(year, month, day) == 365 * march_year(year, month) + leap_days(
            march_year(year, month),
        ) + months_before(month) + day - 719469,
{
    lemma_years(march_year(year, month));
    let m = if month <= 2 {
        month + 9
    } else {
        month - 3
    };
    assert((153 * m + 2) / 5 == months_before(month)) by {
        if month == 1 {
        } else if month == 2 {
        } else if month == 3 {
        } else if month == 4 {
        } else if month == 5 {
        } else if month == 6 {
        } else if month == 7 {
        } else if month == 8 {
        } else if month == 9 {
        } else if month == 10 {
        } else if month == 11 {
        }
    }
}

/// Days are counted from 1970-01-01, and each day of the calendar is one after
/// the day before: across the ends of months and years, and through leap days.
pub proof fn law_days_follow_calendar(year: int, month: int, day: int)
    requires
        is_date(year, month, day),
    ensures
        epoch_days(1970, 1, 1) == 0,
        ({
            let next = next_date(year, month, day);
            epoch_days(next.0, next.1, next.2) == epoch_days(year, month, day) + 1
        }),
{
    lemma_epoch_days(1970, 1, 1);
    assert(leap_days(1969) == 477) by {
        reveal(leap_days);
    }
    let next = next_date(year, month, day);
    lemma_epoch_days(year, month, day);
    lemma_epoch_days(next.0, next.1, next.2);
    lemma_leap_days_step(year);
}

proof fn lemma_weekday_shift(y: int, leaps: int, before: int, shift: int, day: int)
    requires
        (before - shift - 719472) % 7 == 0,
    ensures
        ((y + leaps + shift + day) % 7 + 6) % 7 == (365 * y + leaps + before + day - 719469 + 3)
            % 7,
{
    let k = (before - shift - 719472) / 7;
    assert(before - shift - 719472 == 7 * k);
    assert(365 * y + leaps + before + day - 719469 + 3 == (y + leaps + shift + day + 6) + 7 * (52
        * y + k));
}

proof fn lemma_weekday_unwrapped(year: int, month: int, day: int)
    requires
        1 <= year <= 9999,
        1 <= month <= 12,
        1 <= day <= 31,
    ensures
        weekday(year, month, day) == ((march_year(year, month) + leap_days(
            march_year(year, month),
        ) + month_shift(month) + day) % 7 + 6) % 7,
{
    let y = march_year(year, month);
    assert(wrap32(y) == y);
    let leaps = leap_days(y);
    assert(leaps == y / 4 - y / 100 + y / 400 && 0 <= leaps <= 10000) by {
        reveal(leap_days);
    }
    let shift = month_shift(month);
    assert(0 <= shift <= 6);
    let sum = y + leaps + shift + day;
    assert(wrap32(sum) == sum);
}

proof fn lemma_month_shift(month: int)
    requires
        1 <= month <= 12,
    ensures
        (months_before(month) - month_shift(month) - 719472) % 7 == 0,
{
}

/// The day of the week follows the count of days; 1970-01-01 was a Thursday.
pub proof fn law_weekday_follows_days(year: int, month: int, day: int)
    requires
        is_date(year, month, day),
    ensures
        weekday(year, month, day) == (epoch_days(year, month, day) + 3) % 7,
{
    lemma_epoch_days(year, month, day);
    lemma_weekday_unwrapped(year, month, day);
    lemma_month_shift(month);
    let y = march_year(year, month);
    lemma_weekday_shift(y, leap_days(y), months_before(month), month_shift(month), day);
}

/// On dates of the calendar the seconds between two timestamps are the size of
/// the difference of their counts of seconds.
pub proof fn law_seconds_between_is_exact(a: Seq<u8>, b: Seq<u8>)
    requires
        a.len() < 19 || is_date(field(a, 0, 4), field(a, 5, 7), field(a, 8, 10)),
        b.len() < 19 || is_date(field(b, 0, 4), field(b, 5, 7), field(b, 8, 10)),
    ensures
        wrapped_size(unix_secs(a), unix_secs(b)) == if unix_secs(a) < unix_secs(b) {
            unix_secs(b) - unix_secs(a)
        } else {
            unix_secs(a) - unix_secs(b)
        },
{
    lemma_unix_secs_bounds(a);
    lemma_unix_secs_bounds(b);
}

proof fn lemma_unix_secs_bounds(b: Seq<u8>)
    requires
        b.len() < 19 || is_date(field(b, 0, 4), field(b, 5, 7), field(b, 8, 10)),
    ensures
        -0x100_0000_0000 < unix_secs(b) < 0x100_0000_0000,
{
    if b.len() >= 19 {
        law_short_numbers_fit(b.subrange(0, 4));
        law_short_numbers_fit(b.subrange(5, 7));
        law_short_numbers_fit(b.subrange(8, 10));
        law_short_numbers_fit(b.subrange(11, 13));
        law_short_numbers_fit(b.subrange(14, 16));
        law_short_numbers_fit(b.subrange(17, 19));
        lemma_epoch_days(field(b, 0, 4), field(b, 5, 7), field(b, 8, 10));
        reveal(leap_days);
    }
}

/// A timestamp of the calendar.
pub open spec fn is_timestamp(b: Seq<u8>) -> bool {
    &&& b.len() >= 19
    &&& is_date(field(b, 0, 4), field(b, 5, 7), field(b, 8, 10))
    &&& field(b, 11, 13) < 24
    &&& field(b, 14, 16) < 60
    &&& field(b, 17, 19) < 60
}

/// A date is earlier than another.
pub open spec fn date_before(a: (int, int, int), b: (int, int, int)) -> bool {
    a.0 < b.0 || (a.0 == b.0 && (a.1 < b.1 || (a.1 == b.1 && a.2 < b.2)))
}

/// The date of a timestamp.
pub open spec fn date_of(b: Seq<u8>) -> (int, int, int) {
    (field(b, 0, 4), field(b, 5, 7), field(b, 8, 10))
}

/// The time of day of a timestamp.
pub open spec fn time_of(b: Seq<u8>) -> (int, int, int) {
    (field(b, 11, 13), field(b, 14, 16), field(b, 17, 19))
}

/// A timestamp is earlier than another: by its date, or on the same date by its
/// hour, minute and second.
pub open spec fn comes_before(a: Seq<u8>, b: Seq<u8>) -> bool {
    date_before(date_of(a), date_of(b)) || (date_of(a) == date_of(b) && date_before(
        time_of(a),
        time_of(b),
    ))
}

proof fn lemma_day_in_month(year: int, month: int, day: int)
    ensures
        epoch_days(year, month, day) == epoch_days(year, month, 1) + day - 1,
{
}

/// A month ends before a later one starts.
proof fn lemma_months_ascend(y1: int, m1: int, y2: int, m2: int)
    requires
        1 <= y1 <= y2 <= 9999,
        1 <= m1 <= 12,
        1 <= m2 <= 12,
        y1 < y2 || m1 < m2,
    ensures
        epoch_days(y1, m1, month_length(y1, m1)) < epoch_days(y2, m2, 1),
    decreases 12 * (y2 - y1) + (m2 - m1),
{
    let last = month_length(y1, m1);
    law_days_follow_calendar(y1, m1, last);
    let next = next_date(y1, m1, last);
    if next.0 != y2 || next.1 != m2 {
        lemma_months_ascend(next.0, next.1, y2, m2);
        lemma_day_in_month(next.0, next.1, month_length(next.0, next.1));
    }
}

proof fn lemma_days_ascend(a: (int, int, int), b: (int, int, int))
    requires
        is_date(a.0, a.1, a.2),
        is_date(b.0, b.1, b.2),
        date_before(a, b),
    ensures
        epoch_days(a.0, a.1, a.2) < epoch_days(b.0, b.1, b.2),
{
    lemma_day_in_month(a.0, a.1, a.2);
    lemma_day_in_month(b.0, b.1, b.2);
    if a.0 != b.0 || a.1 != b.1 {
        lemma_day_in_month(a.0, a.1, month_length(a.0, a.1));
        lemma_months_ascend(a.0, a.1, b.0, b.1);
    }
}

/// Seconds are counted on one side of 1970-01-01.
proof fn lemma_epoch_splits(b: Seq<u8>)
    requires
        is_timestamp(b),
    ensures
        field(b, 0, 4) >= 1970 <==> unix_secs(b) >= 0,
{
    let d = date_of(b);
    law_days_follow_calendar(1970, 1, 1);
    law_short_numbers_fit(b.subrange(11, 13));
    law_short_numbers_fit(b.subrange(14, 16));
    law_short_numbers_fit(b.subrange(17, 19));
    if d.0 >= 1970 {
        if d != (1970int, 1int, 1int) {
            lemma_days_ascend((1970, 1, 1), d);
        }
    } else {
        lemma_days_ascend(d, (1970, 1, 1));
    }
}

/// Seconds keep the order of time: of two timestamps the later one has more.
/// So do seconds in 64 bits, unless the earlier timestamp is before 1970 and the
/// later one is not.
pub proof fn law_seconds_keep_order(a: Seq<u8>, b: Seq<u8>)
    requires
        is_timestamp(a),
        is_timestamp(b),
        comes_before(a, b),
    ensures
        unix_secs(a) < unix_secs(b),
        field(a, 0, 4) >= 1970 || field(b, 0, 4) < 1970 ==> wrap64(unix_secs(a)) < wrap64(
            unix_secs(b),
        ),
{
    law_short_numbers_fit(a.subrange(11, 13));
    law_short_numbers_fit(a.subrange(14, 16));
    law_short_numbers_fit(a.subrange(17, 19));
    law_short_numbers_fit(b.subrange(11, 13));
    law_short_numbers_fit(b.subrange(14, 16));
    law_short_numbers_fit(b.subrange(17, 19));
    if date_before(date_of(a), date_of(b)) {
        lemma_days_ascend(date_of(a), date_of(b));
    }
    lemma_epoch_splits(a);
    lemma_epoch_splits(b);
    lemma_unix_secs_bounds(a);
    lemma_unix_secs_bounds(b);
}

/// A number is read in decimal: a further digit makes it ten times as large and
/// adds its value, and any other byte leaves it as it is. Of no bytes it is 0.
pub proof fn law_number_is_decimal(bytes: Seq<u8>, c: u8)
    ensures
        number(Seq::empty()) == 0,
        48 <= c <= 57 ==> number(bytes.push(c)) == 10 * number(bytes) + (c - 48),
        !(48 <= c <= 57) ==> number(bytes.push(c)) == number(bytes),
{
    assert(bytes.push(c).drop_last() =~= bytes);
}

/// Two numbers are the same but for what overflows 32 bits, or 64.
pub proof fn law_wrapping(x: int)
    ensures
        0 <= wrap32(x) <= u32::MAX,
        (x - wrap32(x)) % 0x1_0000_0000 == 0,
        0 <= wrap64(x) <= u64::MAX,
        (x - wrap64(x)) % 0x1_0000_0000_0000_0000 == 0,
{
}

/// The bytes from one position to another are ASCII digits.
pub open spec fn are_digits(b: Seq<u8>, from: int, to: int) -> bool {
    forall|i: int| from <= i < to ==> 48 <= #[trigger] b[i] <= 57
}

/// A field of two digits is ten times the first and the second, and one of four
/// digits is read likewise.
pub proof fn law_fields_are_decimal(b: Seq<u8>, from: int)
    requires
        0 <= from,
    ensures
        from + 2 <= b.len() && are_digits(b, from, from + 2) ==> field(b, from, from + 2) == 10 * (
        b[from] - 48) + (b[from + 1] - 48),
        from + 4 <= b.len() && are_digits(b, from, from + 4) ==> field(b, from, from + 4) == 1000
            * (b[from] - 48) + 100 * (b[from + 1] - 48) + 10 * (b[from + 2] - 48) + (b[from + 3]
            - 48),
{
    let none = Seq::<u8>::empty();
    if from + 2 <= b.len() && are_digits(b, from, from + 2) {
        let one = none.push(b[from]);
        assert(b.subrange(from, from + 2) =~= one.push(b[from + 1]));
        law_number_is_decimal(none, b[from]);
        law_number_is_decimal(one, b[from + 1]);
        if from + 4 <= b.len() && are_digits(b, from, from + 4) {
            let two = one.push(b[from + 1]);
            let three = two.push(b[from + 2]);
            assert(b.subrange(from, from + 4) =~= three.push(b[from + 3]));
            law_number_is_decimal(two, b[from + 2]);
            law_number_is_decimal(three, b[from + 3]);
        }
    }
    if from + 4 <= b.len() && are_digits(b, from, from + 4) {
        assert(are_digits(b, from, from + 2));
    }
}

/// The parts of a timestamp are digits.
pub open spec fn is_written_out(b: Seq<u8>) -> bool {
    &&& b.len() >= 19
    &&& are_digits(b, 0, 4)
    &&& are_digits(b, 5, 7)
    &&& are_digits(b, 8, 10)
    &&& are_digits(b, 11, 13)
    &&& are_digits(b, 14, 16)
    &&& are_digits(b, 17, 19)
}

/// What is read off a timestamp, by its digits: year, month and day stand at 0,
/// 5 and 8, and hour, minute and second at 11, 14 and 17. A day has 86400
/// seconds, an hour 3600 and a minute 60.
pub proof fn law_timestamp_is_read_by_digits(b: Seq<u8>)
    requires
        is_written_out(b),
    ensures
        ({
            let year = 1000 * (b[0] - 48) + 100 * (b[1] - 48) + 10 * (b[2] - 48) + (b[3] - 48);
            let month = 10 * (b[5] - 48) + (b[6] - 48);
            let day = 10 * (b[8] - 48) + (b[9] - 48);
            let hour = 10 * (b[11] - 48) + (b[12] - 48);
            let minute = 10 * (b[14] - 48) + (b[15] - 48);
            let second = 10 * (b[17] - 48) + (b[18] - 48);
            &&& hour_of(b) == hour
            &&& weekday_of(b) == weekday(year, month, day)
            &&& has_calendar_month(b) <==> 1 <= month <= 12
            &&& unix_secs(b) == 86400 * epoch_days(year, month, day) + 3600 * hour + 60 * minute
                + second
        }),
{
    law_fields_are_decimal(b, 0);
    law_fields_are_decimal(b, 5);
    law_fields_are_decimal(b, 8);
    law_fields_are_decimal(b, 11);
    law_fields_are_decimal(b, 14);
    law_fields_are_decimal(b, 17);
}

/// Nothing is read off a timestamp of fewer than 19 bytes.
pub proof fn law_short_timestamp_is_zero(b: Seq<u8>)
    requires
        b.len() < 19,
    ensures
        hour_of(b) == 0,
        weekday_of(b) == 0,
        unix_secs(b) == 0,
        has_calendar_month(b),
{
}

/// The hour of a timestamp of the calendar is the number of whole hours in its
/// time of day, and its day of the week goes by the number of whole days.
pub proof fn law_hour_and_weekday_follow_seconds(b: Seq<u8>)
    requires
        is_timestamp(b),
    ensures
        hour_of(b) == unix_secs(b) % 86400 / 3600,
        0 <= hour_of(b) < 24,
        hour_of(b) == time_of(b).0,
        weekday_of(b) == (unix_secs(b) / 86400 + 3) % 7,
        has_calendar_month(b),
{
    law_short_numbers_fit(b.subrange(11, 13));
    law_short_numbers_fit(b.subrange(14, 16));
    law_short_numbers_fit(b.subrange(17, 19));
    let d = date_of(b);
    let days = epoch_days(d.0, d.1, d.2);
    let t = time_of(b);
    law_weekday_follows_days(d.0, d.1, d.2);
    lemma_split_seconds(days, t.0, t.1, t.2);
}

proof fn lemma_split_seconds(days: int, hour: int, minute: int, second: int)
    requires
        0 <= hour < 24,
        0 <= minute < 60,
        0 <= second < 60,
    ensures
        (days * 86400 + hour * 3600 + minute * 60 + second) / 86400 == days,
        (days * 86400 + hour * 3600 + minute * 60 + second) % 86400 / 3600 == hour,
{
    let rest = hour * 3600 + minute * 60 + second;
    assert(0 <= rest < 86400);
    lemma_fundamental_div_mod_converse(days * 86400 + rest, 86400, days, rest);
    lemma_fundamental_div_mod_converse(rest, 3600, hour, minute * 60 + second);
}

/// Two timestamps of the same date are as many seconds apart as their times of
/// day: 3600 for each hour, 60 for each minute and one for each second.
pub proof fn law_same_day_seconds(a: Seq<u8>, b: Seq<u8>)
    requires
        a.len() >= 19,
        b.len() >= 19,
        date_of(a) == date_of(b),
    ensures
        unix_secs(a) - unix_secs(b) == 3600 * (time_of(a).0 - time_of(b).0) + 60 * (time_of(a).1
            - time_of(b).1) + (time_of(a).2 - time_of(b).2),
{
}

/// The size of the difference of two numbers of 64 bits is their difference, in
/// one direction or the other, but for what overflows.
pub proof fn law_size_of_difference(a: int, b: int)
    ensures
        i64::MIN <= wrapped_size(a, b) <= i64::MAX,
        wrapped_size(a, b) >= 0 || wrapped_size(a, b) == i64::MIN,
        (wrapped_size(a, b) - (a - b)) % 0x1_0000_0000_0000_0000 == 0 || (wrapped_size(a, b) - (b
            - a)) % 0x1_0000_0000_0000_0000 == 0,
{
}

/// Days go on where a date leaves the calendar: a day after the last of a month
/// is one more, five months from March on are 153 days, month 0 is the last of
/// the year before, and 400 years are 146097 days.
pub proof fn law_days_beyond_calendar(year: int, month: int, day: int)
    requires
        1 <= year <= 0x7fff_ffff_ffff_ffff,
        0 <= month <= 0xff_ffff_ffff_ffff,
    ensures
        epoch_days(year, month, day + 1) == epoch_days(year, month, day) + 1,
        month >= 3 ==> epoch_days(year, month + 5, day) == epoch_days(year, month, day) + 153,
        epoch_days(year, 0, day) == epoch_days(year - 1, 12, day),
        epoch_days(year + 400, month, day) == epoch_days(year, month, day) + 146097,
{
    let m = month - 3;
    assert((153 * (m + 5) + 2) / 5 == (153 * m + 2) / 5 + 153);
    let y = if month <= 2 {
        year - 1
    } else {
        year
    };
    assert((y + 400) / 400 == y / 400 + 1);
}

/// The day of the week goes on by one each day, and repeats after 400 years.
pub proof fn law_weekday_goes_on(year: int, month: int, day: int)
    requires
        1 <= year <= 0x4000_0000,
        1 <= month <= 12,
        0 <= day <= 0x4000_0000,
    ensures
        weekday(year, month, day + 1) == (weekday(year, month, day) + 1) % 7,
        weekday(year + 400, month, day) == weekday(year, month, day),
{
    let y = if month < 3 {
        year - 1
    } else {
        year
    };
    let shift = month_shift(month);
    assert(0 <= shift <= 6);
    lemma_weekday_sum(y, shift, day);
    lemma_weekday_sum(y, shift, day + 1);
    lemma_weekday_sum(y + 400, shift, day);
    lemma_four_centuries(y);
    assert(wrap32(y) == y);
    assert(wrap32(y + 400) == y + 400);
    lemma_weeks(y + y / 4 - y / 100 + y / 400 + shift + day);
}

proof fn lemma_four_centuries(y: int)
    ensures
        (y + 400) / 4 == y / 4 + 100,
        (y + 400) / 100 == y / 100 + 4,
        (y + 400) / 400 == y / 400 + 1,
{
}

proof fn lemma_weeks(sum: int)
    ensures
        ((sum + 497) % 7 + 6) % 7 == (sum % 7 + 6) % 7,
        ((sum + 1) % 7 + 6) % 7 == ((sum % 7 + 6) % 7 + 1) % 7,
{
}

proof fn lemma_weekday_sum(y: int, shift: int, day: int)
    requires
        0 <= y <= 0x4000_0400,
        0 <= shift <= 6,
        0 <= day <= 0x4000_0001,
    ensures
        wrap32(y + y / 4 - y / 100 + y / 400 + shift + day) == y + y / 4 - y / 100 + y / 400 + shift
            + day,
{
}

/// A field is read in decimal, byte by byte: a digit more makes it ten times as
/// large and adds its value, and any other byte leaves it as it is.
pub proof fn law_field_goes_on(b: Seq<u8>, from: int, to: int)
    requires
        0 <= from <= to < b.len(),
    ensures
        field(b, from, from) == 0,
        48 <= b[to] <= 57 ==> field(b, from, to + 1) == 10 * field(b, from, to) + (b[to] - 48),
        !(48 <= b[to] <= 57) ==> field(b, from, to + 1) == field(b, from, to),
{
    assert(b.subrange(from, from) =~= Seq::empty());
    assert(b.subrange(from, to + 1) =~= b.subrange(from, to).push(b[to]));
    law_number_is_decimal(b.subrange(from, to), b[to]);
}

/// What is read off a timestamp goes by its fields alone: two timestamps that
/// agree in a part agree in what is read off it.
pub proof fn law_timestamp_parts(b: Seq<u8>)
    requires
        b.len() >= 19,
    ensures
        hour_of(b) == number(b.subrange(11, 13)),
        weekday_of(b) == weekday(
            number(b.subrange(0, 4)),
            number(b.subrange(5, 7)),
            number(b.subrange(8, 10)),
        ),
        has_calendar_month(b) <==> 1 <= number(b.subrange(5, 7)) <= 12,
        unix_secs(b) == 86400 * epoch_days(
            number(b.subrange(0, 4)),
            number(b.subrange(5, 7)),
            number(b.subrange(8, 10)),
        ) + 3600 * number(b.subrange(11, 13)) + 60 * number(b.subrange(14, 16)) + number(
            b.subrange(17, 19),
        ),
{
}

/// The year before year 0 is the last that an unsigned number holds; from March
/// on year 0 is 400 years before year 400.
pub proof fn law_year_zero(month: int, day: int)
    requires
        0 <= month <= 0x1_0000_0000,
    ensures
        month <= 2 ==> epoch_days(0, month, day) == epoch_days(
            0x1_0000_0000_0000_0000,
            month,
            day,
        ),
        month >= 3 ==> epoch_days(0, month, day) == epoch_days(400, month, day) - 146097,
        month <= 2 ==> weekday(0, month, day) == weekday(0x1_0000_0000, month, day),
{
    if month <= 2 {
        assert(wrap64(-1) == wrap64(0x1_0000_0000_0000_0000 - 1));
        assert(wrap32(-1) == wrap32(0x1_0000_0000 - 1));
    }
}

}
