//! Dates of the Gregorian calendar and timestamps in UTC.

use crate::big;
use crate::decimal;
use crate::decimal::{is_decimal_digit, padded_text, parse_i64};
use crate::text;
use crate::text::{chars_of, owned, prefix_of_bytes, string_of_range};
use vstd::prelude::*;

verus! {

/// Whether a year has a 29th of February.
pub open spec fn leap(year: int) -> bool {
    year % 4 == 0 && (year % 100 != 0 || year % 400 == 0)
}

/// How many days lie between the first days of year 0 and of the given year.
pub open spec fn days_before_year(year: int) -> int {
    365 * year + (year + 3) / 4 - (year + 99) / 100 + (year + 399) / 400
}

/// How many days a month has.
pub open spec fn month_length(year: int, month: int) -> int {
    if month == 2 {
        if leap(year) {
            29
        } else {
            28
        }
    } else if month == 4 || month == 6 || month == 9 || month == 11 {
        30
    } else {
        31
    }
}

/// How many days of the year lie before the month.
pub open spec fn days_before_month(year: int, month: int) -> int
    decreases month,
{
    if month <= 1 {
        0
    } else {
        days_before_month(year, month - 1) + month_length(year, month - 1)
    }
}

/// Whether the calendar has the date.
pub open spec fn valid_date(year: int, month: int, day: int) -> bool {
    1 <= month <= 12 && 1 <= day <= month_length(year, month)
}

/// How many days lie between the first day of 1970 and the given day of a month. Days
/// beyond the end of the month run on into the next ones.
pub open spec fn day_number(year: int, month: int, day: int) -> int {
    days_before_year(year) + days_before_month(year, month) + day - 1 - 719_528
}

/// A year has 365 days, and a leap year one more.
pub proof fn lemma_year_length(year: int)
    ensures
        days_before_year(year + 1) == days_before_year(year) + (if leap(year) {
            366int
        } else {
            365int
        }),
        days_before_year(year + 1) == days_before_year(year) + days_before_month(year, 12)
            + month_length(year, 12),
{
    lemma_year_digits(year);
    lemma_year_digits(year + 1);
    lemma_months(year);
}

/// The count of leap years, in terms of the year itself.
proof fn lemma_year_digits(year: int)
    ensures
        days_before_year(year) + (if leap(year) {
            1int
        } else {
            0int
        }) == 365 * year + year / 4 - year / 100 + year / 400 + 1,
        days_before_year(year + 1) == 365 * year + 365 + year / 4 - year / 100 + year / 400 + 1,
{
    assert((year + 3) / 4 == year / 4 + (if year % 4 == 0 {
        0int
    } else {
        1int
    }));
    assert((year + 99) / 100 == year / 100 + (if year % 100 == 0 {
        0int
    } else {
        1int
    }));
    assert((year + 399) / 400 == year / 400 + (if year % 400 == 0 {
        0int
    } else {
        1int
    }));
    assert((year + 1 + 3) / 4 == year / 4 + 1);
    assert((year + 1 + 99) / 100 == year / 100 + 1);
    assert((year + 1 + 399) / 400 == year / 400 + 1);
    lemma_leap_rule(year);
}

/// The rule of leap years, without the cases that cannot occur.
proof fn lemma_leap_rule(year: int)
    ensures
        year % 400 == 0 ==> year % 100 == 0,
        year % 100 == 0 ==> year % 4 == 0,
{
    if year % 400 == 0 {
        assert(year == 100 * (4 * (year / 400)));
    }
    if year % 100 == 0 {
        assert(year == 4 * (25 * (year / 100)));
    }
}

/// The days before each month.
proof fn lemma_months(year: int)
    ensures
        ({
            let f = if leap(year) {
                29int
            } else {
                28int
            };
            &&& days_before_month(year, 1) == 0
            &&& days_before_month(year, 2) == 31
            &&& days_before_month(year, 3) == 31 + f
            &&& days_before_month(year, 4) == 62 + f
            &&& days_before_month(year, 5) == 92 + f
            &&& days_before_month(year, 6) == 123 + f
            &&& days_before_month(year, 7) == 153 + f
            &&& days_before_month(year, 8) == 184 + f
            &&& days_before_month(year, 9) == 215 + f
            &&& days_before_month(year, 10) == 245 + f
            &&& days_before_month(year, 11) == 276 + f
            &&& days_before_month(year, 12) == 306 + f
        }),
{
    reveal_with_fuel(days_before_month, 13);
}

/// The quotient rounded down.
fn floor_div(a: i128, b: i128) -> (q: i128)
    requires
        b > 0,
    ensures
        q == a as int / b as int,
{
    if a >= 0 {
        a / b
    } else {
        let k: i128 = (-(a + 1)) / b;
        proof {
            let n = -(a as int + 1);
            let r = n % b as int;
            vstd::arithmetic::div_mod::lemma_fundamental_div_mod(n, b as int);
            assert(a as int == (-(k as int) - 1) * (b as int) + (b - 1 - r)) by (nonlinear_arith)
                requires
                    n == -(a as int + 1),
                    n == (b as int) * (k as int) + r,
            ;
            vstd::arithmetic::div_mod::lemma_fundamental_div_mod_converse(
                a as int,
                b as int,
                -(k as int) - 1,
                b - 1 - r,
            );
        }
        -k - 1
    }
}

/// The quotient cut off at the point.
pub open spec fn cut_div(a: int, b: int) -> int {
    if a >= 0 {
        a / b
    } else {
        -((-a) / b)
    }
}

/// The number of a day, by the years and the months counted from March. Months beyond the
/// year have lengths after the same pattern.
pub open spec fn counted_day(year: int, month: int, day: int) -> int {
    let y = if month <= 2 {
        year - 1
    } else {
        year
    };
    let m = if month <= 2 {
        month + 9
    } else {
        month - 3
    };
    365 * y + y / 4 - y / 100 + y / 400 + cut_div(153 * m + 2, 5) + day - 1 - 719_468
}

/// For the months of the calendar that is the number of the day.
pub proof fn lemma_counted_day(year: int, month: int, day: int)
    requires
        1 <= month <= 12,
    ensures
        counted_day(year, month, day) == day_number(year, month, day),
{
    lemma_year_digits(year - 1);
    lemma_year_digits(year);
    lemma_months(year);
}

/// The number of a day; for the months of the calendar see [`day_number`].
pub fn days_from_civil(year: i64, month: i64, day: i64) -> (out: i64)
    requires
        i64::MIN <= counted_day(year as int, month as int, day as int) <= i64::MAX,
    ensures
        out == counted_day(year as int, month as int, day as int),
        1 <= month <= 12 ==> out == day_number(year as int, month as int, day as int),
{
    let y: i128 = if month <= 2 {
        year as i128 - 1
    } else {
        year as i128
    };
    let m: i128 = if month <= 2 {
        month as i128 + 9
    } else {
        month as i128 - 3
    };
    let era = floor_div(y, 400);
    let yoe: i128 = y - era * 400;
    let count: i128 = 153 * m + 2;
    let before: i128 = if count >= 0 {
        count / 5
    } else {
        -((-count) / 5)
    };
    let doe: i128 = yoe * 365 + yoe / 4 - yoe / 100 + before + day as i128 - 1;
    proof {
        lemma_era(era as int, yoe as int);
        if 1 <= month <= 12 {
            lemma_counted_day(year as int, month as int, day as int);
        }
    }
    (era * 146_097 + doe - 719_468) as i64
}

/// The leap years of a year in terms of its place in an era of 400 years.
proof fn lemma_era(era: int, yoe: int)
    requires
        0 <= yoe < 400,
    ensures
        ({
            let y = 400 * era + yoe;
            365 * y + y / 4 - y / 100 + y / 400 == era * 146_097 + 365 * yoe + yoe / 4 - yoe / 100
        }),
{
    let y = 400 * era + yoe;
    assert(y / 4 == 100 * era + yoe / 4);
    assert(y / 100 == 4 * era + yoe / 100);
    assert(y / 400 == era);
}

/// The year of a day of an era, counted from March.
proof fn lemma_year_of_era(doe: int)
    requires
        0 <= doe < 146_097,
    ensures
        ({
            let yoe = (doe - doe / 1460 + doe / 36_524 - doe / 146_096) / 365;
            &&& 0 <= yoe < 400
            &&& 365 * yoe + yoe / 4 - yoe / 100 <= doe
            &&& doe - (365 * yoe + yoe / 4 - yoe / 100) <= 365
            &&& doe - (365 * yoe + yoe / 4 - yoe / 100) == 365 ==> leap(yoe + 1)
        }),
{
    let a = doe / 1460;
    let b = doe / 36_524;
    let c = doe / 146_096;
    let yoe = (doe - a + b - c) / 365;
    let q = yoe / 4;
    let h = yoe / 100;
    assert(0 <= b <= 4);
    assert(0 <= c <= 1);
    assert(0 <= yoe < 400);
    assert(0 <= h <= 3);
}

/// The month and day of a day of the year, counted from March.
proof fn lemma_month_of_year(doy: int)
    requires
        0 <= doy <= 365,
    ensures
        ({
            let mp = (5 * doy + 2) / 153;
            let day = doy - (153 * mp + 2) / 5 + 1;
            &&& 0 <= mp <= 11
            &&& 1 <= day
            &&& mp == 0 ==> day <= 31 && doy == day - 1
            &&& mp == 1 ==> day <= 30 && doy == day + 30
            &&& mp == 2 ==> day <= 31 && doy == day + 60
            &&& mp == 3 ==> day <= 30 && doy == day + 91
            &&& mp == 4 ==> day <= 31 && doy == day + 121
            &&& mp == 5 ==> day <= 31 && doy == day + 152
            &&& mp == 6 ==> day <= 30 && doy == day + 183
            &&& mp == 7 ==> day <= 31 && doy == day + 213
            &&& mp == 8 ==> day <= 30 && doy == day + 244
            &&& mp == 9 ==> day <= 31 && doy == day + 274
            &&& mp == 10 ==> day <= 31 && doy == day + 305
            &&& mp == 11 ==> day <= 29 && doy == day + 336
        }),
{
}

/// Whether a year is a leap year depends on its place in an era only.
proof fn lemma_leap_in_era(era: int, yoe: int)
    ensures
        leap(400 * era + yoe) == leap(yoe),
{
    vstd::arithmetic::div_mod::lemma_mod_multiples_vanish(100 * era, yoe, 4);
    vstd::arithmetic::div_mod::lemma_mod_multiples_vanish(4 * era, yoe, 100);
    vstd::arithmetic::div_mod::lemma_mod_multiples_vanish(era, yoe, 400);
}

/// The date with the given number: its year, month and day.
pub fn civil_from_days(days: i64) -> (out: (i64, i64, i64))
    requires
        days <= i64::MAX - 719_468,
    ensures
        valid_date(out.0 as int, out.1 as int, out.2 as int),
        day_number(out.0 as int, out.1 as int, out.2 as int) == days,
{
    let z: i64 = days + 719_468;
    let era: i64 = floor_div(z as i128, 146_097) as i64;
    let doe: i64 = z - era * 146_097;
    let yoe: i64 = (doe - doe / 1460 + doe / 36_524 - doe / 146_096) / 365;
    let y: i64 = yoe + era * 400;
    let doy: i64 = doe - (365 * yoe + yoe / 4 - yoe / 100);
    let mp: i64 = (5 * doy + 2) / 153;
    let d: i64 = doy - (153 * mp + 2) / 5 + 1;
    let m: i64 = if mp < 10 {
        mp + 3
    } else {
        mp - 9
    };
    let year: i64 = if m <= 2 {
        y + 1
    } else {
        y
    };
    proof {
        lemma_year_of_era(doe as int);
        lemma_month_of_year(doy as int);
        lemma_era(era as int, yoe as int);
        lemma_year_digits(y as int);
        lemma_months(year as int);
        lemma_leap_in_era(era as int, yoe + 1);
    }
    (year, m, d)
}

// ---------------------------------------------------------------------------
// The order of dates
// ---------------------------------------------------------------------------

/// Whether a date comes before another one.
pub open spec fn date_lt(a: (int, int, int), b: (int, int, int)) -> bool {
    a.0 < b.0 || (a.0 == b.0 && (a.1 < b.1 || (a.1 == b.1 && a.2 < b.2)))
}

/// Years further on begin later.
proof fn lemma_years_grow(a: int, b: int)
    requires
        a <= b,
    ensures
        days_before_year(a) <= days_before_year(b),
    decreases b - a,
{
    if a < b {
        lemma_years_grow(a, b - 1);
        lemma_year_length(b - 1);
    }
}

/// Months further on begin after every day of the earlier ones.
proof fn lemma_months_grow(year: int, a: int, b: int)
    requires
        1 <= a < b,
    ensures
        days_before_month(year, a) + month_length(year, a) <= days_before_month(year, b),
    decreases b - a,
{
    if a < b - 1 {
        lemma_months_grow(year, a, b - 1);
    }
}

/// The numbers of days follow the order of the dates.
pub proof fn lemma_day_number_order(a: (int, int, int), b: (int, int, int))
    requires
        valid_date(a.0, a.1, a.2),
        valid_date(b.0, b.1, b.2),
        date_lt(a, b),
    ensures
        day_number(a.0, a.1, a.2) < day_number(b.0, b.1, b.2),
{
    if a.0 < b.0 {
        lemma_years_grow(a.0 + 1, b.0);
        lemma_year_length(a.0);
        if a.1 < 12 {
            lemma_months_grow(a.0, a.1, 12);
        }
        if b.1 > 1 {
            lemma_months_grow(b.0, 1, b.1);
        }
    } else if a.1 < b.1 {
        lemma_months_grow(a.0, a.1, b.1);
    }
}

/// No two dates have the same number.
pub proof fn lemma_day_number_injective(a: (int, int, int), b: (int, int, int))
    requires
        valid_date(a.0, a.1, a.2),
        valid_date(b.0, b.1, b.2),
        day_number(a.0, a.1, a.2) == day_number(b.0, b.1, b.2),
    ensures
        a == b,
{
    if date_lt(a, b) {
        lemma_day_number_order(a, b);
    } else if date_lt(b, a) {
        lemma_day_number_order(b, a);
    }
}

/// Whether the date is the one with the given number.
pub open spec fn is_date_of(date: (int, int, int), days: int) -> bool {
    valid_date(date.0, date.1, date.2) && day_number(date.0, date.1, date.2) == days
}

/// The date with the given number.
pub open spec fn civil(days: int) -> (int, int, int) {
    choose|date: (int, int, int)| is_date_of(date, days)
}

/// There is only one date with a given number.
pub proof fn lemma_civil(date: (int, int, int), days: int)
    requires
        is_date_of(date, days),
    ensures
        civil(days) == date,
{
    assert(is_date_of(civil(days), days));
    lemma_day_number_injective(civil(days), date);
}

/// Every number is that of a date.
pub proof fn lemma_civil_exists(days: int)
    ensures
        is_date_of(civil(days), days),
{
    let z = days + 719_468;
    let era = z / 146_097;
    let doe = z % 146_097;
    let yoe = (doe - doe / 1460 + doe / 36_524 - doe / 146_096) / 365;
    let y = yoe + era * 400;
    let doy = doe - (365 * yoe + yoe / 4 - yoe / 100);
    let mp = (5 * doy + 2) / 153;
    let d = doy - (153 * mp + 2) / 5 + 1;
    let m = if mp < 10 {
        mp + 3
    } else {
        mp - 9
    };
    let year = if m <= 2 {
        y + 1
    } else {
        y
    };
    lemma_year_of_era(doe);
    lemma_month_of_year(doy);
    lemma_era(era, yoe);
    lemma_year_digits(y);
    lemma_months(year);
    lemma_leap_in_era(era, yoe + 1);
    assert(is_date_of((year, m, d), days));
}

// ---------------------------------------------------------------------------
// Writing
// ---------------------------------------------------------------------------

/// A date in the form `2026-05-01`.
pub open spec fn date_text(date: (int, int, int)) -> Seq<char> {
    decimal::padded(date.0, 4) + "-"@ + decimal::padded(date.1, 2) + "-"@ + decimal::padded(
        date.2,
        2,
    )
}

/// A time of day in the form `23:59:59`, from the seconds since midnight.
pub open spec fn time_text(secs: int) -> Seq<char> {
    decimal::padded(secs / 3600, 2) + ":"@ + decimal::padded((secs % 3600) / 60, 2) + ":"@
        + decimal::padded(secs % 60, 2)
}

/// A timestamp in the form `2026-05-01T23:59:59Z`, from the seconds since the start of 1970.
pub open spec fn timestamp(secs: int) -> Seq<char> {
    date_text(civil(secs / 86_400)) + "T"@ + time_text(secs % 86_400) + "Z"@
}

fn write_date(year: i64, month: i64, day: i64) -> (out: String)
    ensures
        out@ == date_text((year as int, month as int, day as int)),
{
    let mut out = padded_text(year, 4);
    out.append("-");
    out.append(padded_text(month, 2).as_str());
    out.append("-");
    out.append(padded_text(day, 2).as_str());
    out
}

/// The date with the given number, as text.
pub fn date_from_days(days: i64) -> (out: String)
    requires
        days <= i64::MAX - 719_468,
    ensures
        out@ == date_text(civil(days as int)),
{
    let (year, month, day) = civil_from_days(days);
    proof {
        lemma_civil((year as int, month as int, day as int), days as int);
    }
    write_date(year, month, day)
}

/// The timestamp of the given number of seconds since the start of 1970.
pub fn unix_to_rfc3339(secs: i64) -> (out: String)
    ensures
        out@ == timestamp(secs as int),
{
    let days: i64 = floor_div(secs as i128, 86_400) as i64;
    let rem: i64 = (secs as i128 - days as i128 * 86_400) as i64;
    let hour: i64 = rem / 3600;
    let minute: i64 = (rem % 3600) / 60;
    let second: i64 = rem % 60;
    let mut out = date_from_days(days);
    out.append("T");
    let mut time = padded_text(hour, 2);
    time.append(":");
    time.append(padded_text(minute, 2).as_str());
    time.append(":");
    time.append(padded_text(second, 2).as_str());
    out.append(time.as_str());
    out.append("Z");
    out
}

// ---------------------------------------------------------------------------
// Reading
// ---------------------------------------------------------------------------

/// The number of the day that a text begins with, in the form `2026-05-01`. The day is not
/// held against the length of the month.
pub open spec fn leading_day(s: Seq<char>) -> Option<int> {
    if s.len() < 10 || s[4] != '-' || s[7] != '-' {
        None
    } else {
        match (
            decimal::i64_value(s.subrange(0, 4)),
            decimal::i64_value(s.subrange(5, 7)),
            decimal::i64_value(s.subrange(8, 10)),
        ) {
            (Some(year), Some(month), Some(day)) => if 1 <= month <= 12 && 1 <= day <= 31 {
                Some(day_number(year, month, day))
            } else {
                None
            },
            _ => None,
        }
    }
}

/// Four characters stand for no number beyond 9999.
proof fn lemma_short_number(s: Seq<char>)
    requires
        s.len() <= 4,
        decimal::i64_value(s) is Some,
    ensures
        -9999 <= decimal::i64_value(s)->0 <= 9999,
{
    let d = decimal::unsigned_part(s);
    assert forall|i: int| 0 <= i < d.len() implies '0' <= (#[trigger] d[i]) && d[i] <= '9' by {
        assert(decimal::is_digit(d[i]));
    }
    reveal_with_fuel(decimal::digits_value, 5);
}

/// The days that texts begin with lie within some ten thousand years.
pub proof fn lemma_leading_day_range(s: Seq<char>)
    requires
        leading_day(s) is Some,
    ensures
        -5_000_000 <= leading_day(s)->0 <= 5_000_000,
{
    let year = decimal::i64_value(s.subrange(0, 4))->0;
    let month = decimal::i64_value(s.subrange(5, 7))->0;
    lemma_short_number(s.subrange(0, 4));
    assert(0 <= days_before_month(year, month) <= 31 * 11) by {
        reveal_with_fuel(days_before_month, 12);
    }
}

/// The number of the day that a text begins with.
pub fn date_days(value: &str) -> (out: Option<i64>)
    ensures
        match out {
            Some(n) => leading_day(value@) == Some(n as int),
            None => leading_day(value@) is None,
        },
{
    let chars = chars_of(value);
    if chars.len() < 10 || chars[4] != '-' || chars[7] != '-' {
        return None;
    }
    let year = parse_i64(string_of_range(&chars, 0, 4).as_str());
    let month = parse_i64(string_of_range(&chars, 5, 7).as_str());
    let day = parse_i64(string_of_range(&chars, 8, 10).as_str());
    match (year, month, day) {
        (Some(y), Some(m), Some(d)) => {
            if m < 1 || m > 12 || d < 1 || d > 31 {
                return None;
            }
            proof {
                lemma_counted_day(y as int, m as int, d as int);
                lemma_leading_day_range(value@);
            }
            Some(days_from_civil(y, m, d))
        },
        _ => None,
    }
}

/// The first ten bytes of a text, which are the day of a timestamp; the whole text where it
/// has no such beginning.
pub open spec fn day_part(s: Seq<char>) -> Seq<char> {
    match text::byte_prefix(s, 10) {
        Some(day) => day,
        None => s,
    }
}

/// The day of a timestamp.
pub fn short_date(iso: &str) -> (out: String)
    ensures
        out@ == day_part(iso@),
{
    match prefix_of_bytes(iso, 10) {
        Some(day) => day,
        None => owned(iso),
    }
}

/// The number that two digits stand for.
pub open spec fn two_digits(s: Seq<char>, at: int) -> int {
    decimal::digit_value(s[at]) * 10 + decimal::digit_value(s[at + 1])
}

/// Whether the text has the form of a timestamp in UTC, with numbers in their ranges. The
/// day is not held against the length of the month.
pub open spec fn is_timestamp(s: Seq<char>) -> bool {
    &&& s.len() == 20
    &&& s[4] == '-' && s[7] == '-' && s[10] == 'T' && s[13] == ':' && s[16] == ':' && s[19] == 'Z'
    &&& forall|i: int|
        0 <= i < 19 && i != 4 && i != 7 && i != 10 && i != 13 && i != 16 ==> decimal::is_digit(
            #[trigger] s[i],
        )
    &&& 1 <= two_digits(s, 5) <= 12
    &&& 1 <= two_digits(s, 8) <= 31
    &&& two_digits(s, 11) < 24
    &&& two_digits(s, 14) < 60
    &&& two_digits(s, 17) < 60
}

fn read_two(chars: &Vec<char>, at: usize) -> (n: u32)
    requires
        at + 1 < chars.len(),
        decimal::is_digit(chars@[at as int]),
        decimal::is_digit(chars@[at + 1]),
    ensures
        n == two_digits(chars@, at as int),
{
    let high = chars[at];
    let low = chars[at + 1];
    (high as u32 - 48) * 10 + (low as u32 - 48)
}

/// Whether the text is a timestamp in UTC; see [`is_timestamp`].
pub fn is_rfc3339_utc(value: &str) -> (out: bool)
    ensures
        out == is_timestamp(value@),
{
    let chars = chars_of(value);
    if chars.len() != 20 {
        return false;
    }
    if chars[4] != '-' || chars[7] != '-' || chars[10] != 'T' || chars[13] != ':' || chars[16]
        != ':' || chars[19] != 'Z' {
        return false;
    }
    for i in 0..19
        invariant
            chars@ == value@,
            chars@.len() == 20,
            forall|j: int|
                0 <= j < i && j != 4 && j != 7 && j != 10 && j != 13 && j != 16
                    ==> decimal::is_digit(#[trigger] chars@[j]),
    {
        let punctuation = i == 4 || i == 7 || i == 10 || i == 13 || i == 16;
        if !punctuation && !is_decimal_digit(chars[i]) {
            return false;
        }
    }
    let month = read_two(&chars, 5);
    let day = read_two(&chars, 8);
    let hour: u32 = read_two(&chars, 11);
    let minute: u32 = read_two(&chars, 14);
    let second: u32 = read_two(&chars, 17);
    1 <= month && month <= 12 && 1 <= day && day <= 31 && hour < 24 && minute < 60 && second < 60
}

/// The seconds since the start of 1970 that a timestamp stands for. Days beyond the end of
/// the month run on into the next one.
pub open spec fn stamp_secs(s: Seq<char>) -> int {
    leading_day(s)->0 * 86_400 + two_digits(s, 11) * 3600 + two_digits(s, 14) * 60 + two_digits(
        s,
        17,
    )
}

/// The date that a timestamp begins with.
pub open spec fn stamp_date(s: Seq<char>) -> (int, int, int) {
    (decimal::digits_value(s.subrange(0, 4)) as int, two_digits(s, 5), two_digits(s, 8))
}

/// Two digits are read as their number.
proof fn lemma_two_digits_value(s: Seq<char>, at: int)
    requires
        0 <= at,
        at + 2 <= s.len(),
        decimal::is_digit(s[at]),
        decimal::is_digit(s[at + 1]),
    ensures
        decimal::all_digits(s.subrange(at, at + 2)),
        decimal::i64_value(s.subrange(at, at + 2)) == Some(two_digits(s, at)),
        0 <= two_digits(s, at) < 100,
        decimal::padded(two_digits(s, at), 2) == s.subrange(at, at + 2),
{
    let d = s.subrange(at, at + 2);
    assert(d[0] == s[at] && d[1] == s[at + 1]);
    reveal_with_fuel(decimal::digits_value, 3);
    reveal_with_fuel(big::ten_pow, 3);
    assert(d.drop_last().drop_last() =~= seq![]);
    decimal::lemma_fixed_digits(d);
    decimal::lemma_padded_is_fixed(two_digits(s, at) as nat, 2);
}

/// A timestamp begins with its date.
proof fn lemma_stamp_date(s: Seq<char>)
    requires
        is_timestamp(s),
    ensures
        ({
            let date = stamp_date(s);
            &&& 0 <= date.0 <= 9999
            &&& 1 <= date.1 <= 12
            &&& 1 <= date.2 <= 31
            &&& leading_day(s) == Some(day_number(date.0, date.1, date.2))
            &&& s == date_text(date) + s.skip(10)
        }),
{
    let year = s.subrange(0, 4);
    let date = stamp_date(s);
    assert forall|i: int| 0 <= i < 4 implies decimal::is_digit(#[trigger] year[i]) by {
        assert(decimal::is_digit(s[i]));
    }
    assert(decimal::is_digit(s[5]) && decimal::is_digit(s[6]));
    assert(decimal::is_digit(s[8]) && decimal::is_digit(s[9]));
    reveal_with_fuel(big::ten_pow, 5);
    decimal::lemma_fixed_digits(year);
    decimal::lemma_padded_is_fixed(date.0 as nat, 4);
    assert(decimal::is_digit(year[0]));
    assert(decimal::unsigned_part(year) == year);
    lemma_two_digits_value(s, 5);
    lemma_two_digits_value(s, 8);
    reveal_strlit("-");
    assert(s =~= date_text(date) + s.skip(10));
}

/// A timestamp stands for a moment whose year has four digits.
pub proof fn lemma_stamp_range(s: Seq<char>)
    requires
        is_timestamp(s),
    ensures
        leading_day(s) is Some,
        stamp_secs(s) / 86_400 == leading_day(s)->0,
        four_digit_year(stamp_secs(s) / 86_400),
        -62_167_219_200 <= stamp_secs(s) <= 253_402_300_799,
{
    let (y, m, d) = stamp_date(s);
    lemma_stamp_date(s);
    assert(decimal::is_digit(s[11]) && decimal::is_digit(s[12]));
    assert(decimal::is_digit(s[14]) && decimal::is_digit(s[15]));
    assert(decimal::is_digit(s[17]) && decimal::is_digit(s[18]));
    lemma_two_digits_value(s, 11);
    lemma_two_digits_value(s, 14);
    lemma_two_digits_value(s, 17);
    let first = (0int, 1int, 1int);
    let last = (9999int, 12int, 31int);
    let low = (y, m, 1int);
    let high = if m == 12 {
        (y, 12int, 31int)
    } else {
        (y, m + 1, 3int)
    };
    lemma_year_length(9999);
    assert(day_number(0, 1, 1) == -719_528);
    assert(day_number(9999, 12, 31) == 2_932_896);
    if low != first {
        lemma_day_number_order(first, low);
    }
    assert(day_number(y, m, d) <= day_number(high.0, high.1, high.2));
    if high != last {
        lemma_day_number_order(high, last);
    }
    lemma_four_digit_year(leading_day(s)->0);
}

/// The seconds since the start of 1970 that a timestamp stands for.
pub fn timestamp_secs(value: &str) -> (out: Option<i64>)
    ensures
        match out {
            Some(secs) => is_timestamp(value@) && secs == stamp_secs(value@),
            None => !is_timestamp(value@),
        },
{
    if !is_rfc3339_utc(value) {
        return None;
    }
    let chars = chars_of(value);
    proof {
        lemma_stamp_range(value@);
        assert(decimal::is_digit(chars@[11]) && decimal::is_digit(chars@[12]));
        assert(decimal::is_digit(chars@[14]) && decimal::is_digit(chars@[15]));
        assert(decimal::is_digit(chars@[17]) && decimal::is_digit(chars@[18]));
        lemma_two_digits_value(value@, 11);
        lemma_two_digits_value(value@, 14);
        lemma_two_digits_value(value@, 17);
    }
    match date_days(value) {
        Some(day) => {
            let hour: u32 = read_two(&chars, 11);
            let minute: u32 = read_two(&chars, 14);
            let second: u32 = read_two(&chars, 17);
            Some(day * 86_400 + hour as i64 * 3600 + minute as i64 * 60 + second as i64)
        },
        None => None,
    }
}

// ---------------------------------------------------------------------------
// Laws
// ---------------------------------------------------------------------------

/// Whether the year of a day is written with four digits.
pub open spec fn four_digit_year(days: int) -> bool {
    0 <= civil(days).0 <= 9999
}

/// The days with a year of four digits lie between the first day of year 0 and the last one
/// of year 9999.
pub proof fn lemma_four_digit_year(days: int)
    ensures
        four_digit_year(days) <==> -719_528 <= days <= 2_932_896,
{
    let date = civil(days);
    lemma_civil_exists(days);
    let first = (0int, 1int, 1int);
    let last = (9999int, 12int, 31int);
    lemma_year_length(9999);
    assert(day_number(0, 1, 1) == -719_528);
    assert(day_number(9999, 12, 31) == 2_932_896);
    if date_lt(date, first) {
        lemma_day_number_order(date, first);
    } else if date != first {
        lemma_day_number_order(first, date);
    }
    if date_lt(last, date) {
        lemma_day_number_order(last, date);
    } else if date != last {
        lemma_day_number_order(date, last);
    }
}

/// The parts of a date with a year of four digits have their widths.
proof fn lemma_date_widths(date: (int, int, int))
    requires
        1 <= date.1 <= 12,
        1 <= date.2 <= 31,
        0 <= date.0 <= 9999,
    ensures
        decimal::padded(date.0, 4).len() == 4,
        decimal::padded(date.1, 2).len() == 2,
        decimal::padded(date.2, 2).len() == 2,
        decimal::all_digits(decimal::padded(date.0, 4)),
        decimal::all_digits(decimal::padded(date.1, 2)),
        decimal::all_digits(decimal::padded(date.2, 2)),
        decimal::i64_value(decimal::padded(date.0, 4)) == Some(date.0),
        decimal::i64_value(decimal::padded(date.1, 2)) == Some(date.1),
        decimal::i64_value(decimal::padded(date.2, 2)) == Some(date.2),
        date_text(date).len() == 10,
{
    reveal_with_fuel(big::ten_pow, 5);
    decimal::lemma_padded_value(date.0 as nat, 4);
    decimal::lemma_padded_value(date.1 as nat, 2);
    decimal::lemma_padded_value(date.2 as nat, 2);
    reveal_strlit("-");
}

/// The texts of dates follow the order of the dates, whether or not the months have the
/// days.
pub proof fn lemma_date_text_order(a: (int, int, int), b: (int, int, int))
    requires
        1 <= a.1 <= 12,
        1 <= a.2 <= 31,
        1 <= b.1 <= 12,
        1 <= b.2 <= 31,
        0 <= a.0 <= 9999,
        0 <= b.0 <= 9999,
        date_lt(a, b),
    ensures
        text::text_lt(date_text(a), date_text(b)),
        date_text(a).len() == 10,
        date_text(b).len() == 10,
{
    lemma_date_widths(a);
    lemma_date_widths(b);
    reveal_with_fuel(big::ten_pow, 5);
    reveal_strlit("-");
    let dash = "-"@;
    let (ya, ma, da) = (
        decimal::padded(a.0, 4),
        decimal::padded(a.1, 2),
        decimal::padded(a.2, 2),
    );
    let (yb, mb, db) = (
        decimal::padded(b.0, 4),
        decimal::padded(b.1, 2),
        decimal::padded(b.2, 2),
    );
    if a.0 < b.0 {
        decimal::lemma_padded_order(a.0 as nat, b.0 as nat, 4);
        text::lemma_text_lt_front(ya, yb, dash, dash);
        text::lemma_text_lt_front(ya + dash, yb + dash, ma, mb);
        text::lemma_text_lt_front(ya + dash + ma, yb + dash + mb, dash, dash);
        text::lemma_text_lt_front(ya + dash + ma + dash, yb + dash + mb + dash, da, db);
    } else if a.1 < b.1 {
        decimal::lemma_padded_order(a.1 as nat, b.1 as nat, 2);
        text::lemma_text_lt_common(ya + dash, ma, mb);
        text::lemma_text_lt_front(ya + dash + ma, yb + dash + mb, dash, dash);
        text::lemma_text_lt_front(ya + dash + ma + dash, yb + dash + mb + dash, da, db);
    } else {
        decimal::lemma_padded_order(a.2 as nat, b.2 as nat, 2);
        text::lemma_text_lt_common(ya + dash + ma + dash, da, db);
    }
}

/// The parts of a time of day have two digits each.
proof fn lemma_time_widths(secs: int)
    requires
        0 <= secs < 86_400,
    ensures
        decimal::padded(secs / 3600, 2).len() == 2,
        decimal::padded((secs % 3600) / 60, 2).len() == 2,
        decimal::padded(secs % 60, 2).len() == 2,
        decimal::all_digits(decimal::padded(secs / 3600, 2)),
        decimal::all_digits(decimal::padded((secs % 3600) / 60, 2)),
        decimal::all_digits(decimal::padded(secs % 60, 2)),
        decimal::i64_value(decimal::padded(secs / 3600, 2)) == Some(secs / 3600),
        decimal::i64_value(decimal::padded((secs % 3600) / 60, 2)) == Some((secs % 3600) / 60),
        decimal::i64_value(decimal::padded(secs % 60, 2)) == Some(secs % 60),
        time_text(secs).len() == 8,
{
    reveal_with_fuel(big::ten_pow, 3);
    decimal::lemma_padded_value((secs / 3600) as nat, 2);
    decimal::lemma_padded_value(((secs % 3600) / 60) as nat, 2);
    decimal::lemma_padded_value((secs % 60) as nat, 2);
    reveal_strlit(":");
}

/// The texts of times of day follow their order.
proof fn lemma_time_text_order(a: int, b: int)
    requires
        0 <= a < b < 86_400,
    ensures
        text::text_lt(time_text(a), time_text(b)),
        time_text(a).len() == 8,
        time_text(b).len() == 8,
{
    lemma_time_widths(a);
    lemma_time_widths(b);
    reveal_with_fuel(big::ten_pow, 3);
    reveal_strlit(":");
    let colon = ":"@;
    let (ha, ma, sa) = (
        decimal::padded(a / 3600, 2),
        decimal::padded((a % 3600) / 60, 2),
        decimal::padded(a % 60, 2),
    );
    let (hb, mb, sb) = (
        decimal::padded(b / 3600, 2),
        decimal::padded((b % 3600) / 60, 2),
        decimal::padded(b % 60, 2),
    );
    if a / 3600 < b / 3600 {
        decimal::lemma_padded_order((a / 3600) as nat, (b / 3600) as nat, 2);
        text::lemma_text_lt_front(ha, hb, colon, colon);
        text::lemma_text_lt_front(ha + colon, hb + colon, ma, mb);
        text::lemma_text_lt_front(ha + colon + ma, hb + colon + mb, colon, colon);
        text::lemma_text_lt_front(ha + colon + ma + colon, hb + colon + mb + colon, sa, sb);
    } else if (a % 3600) / 60 < (b % 3600) / 60 {
        decimal::lemma_padded_order(((a % 3600) / 60) as nat, ((b % 3600) / 60) as nat, 2);
        text::lemma_text_lt_common(ha + colon, ma, mb);
        text::lemma_text_lt_front(ha + colon + ma, hb + colon + mb, colon, colon);
        text::lemma_text_lt_front(ha + colon + ma + colon, hb + colon + mb + colon, sa, sb);
    } else {
        assert((a % 3600) / 60 == (b % 3600) / 60);
        assert(a % 60 < b % 60);
        decimal::lemma_padded_order((a % 60) as nat, (b % 60) as nat, 2);
        text::lemma_text_lt_common(ha + colon + ma + colon, sa, sb);
    }
}

/// Timestamps with years of four digits are ordered as the moments are, so that comparing
/// their texts compares the times.
pub proof fn lemma_timestamp_order(a: int, b: int)
    requires
        a < b,
        four_digit_year(a / 86_400),
        four_digit_year(b / 86_400),
    ensures
        text::text_lt(timestamp(a), timestamp(b)),
{
    let da = civil(a / 86_400);
    let db = civil(b / 86_400);
    lemma_civil_exists(a / 86_400);
    lemma_civil_exists(b / 86_400);
    reveal_strlit("T");
    reveal_strlit("Z");
    let (ta, tb) = (time_text(a % 86_400), time_text(b % 86_400));
    lemma_date_widths(da);
    lemma_date_widths(db);
    lemma_time_widths(a % 86_400);
    lemma_time_widths(b % 86_400);
    if a / 86_400 < b / 86_400 {
        if date_lt(db, da) {
            lemma_day_number_order(db, da);
        }
        assert(date_lt(da, db));
        lemma_date_text_order(da, db);
        text::lemma_text_lt_front(date_text(da), date_text(db), "T"@, "T"@);
        text::lemma_text_lt_front(date_text(da) + "T"@, date_text(db) + "T"@, ta, tb);
        text::lemma_text_lt_front(date_text(da) + "T"@ + ta, date_text(db) + "T"@ + tb, "Z"@, "Z"@);
    } else {
        lemma_time_text_order(a % 86_400, b % 86_400);
        text::lemma_text_lt_common(date_text(da) + "T"@, ta, tb);
        text::lemma_text_lt_front(date_text(da) + "T"@ + ta, date_text(db) + "T"@ + tb, "Z"@, "Z"@);
    }
}

/// The date at the front of a text is read back as the number of its day.
pub proof fn lemma_date_read_back(days: int, rest: Seq<char>)
    requires
        four_digit_year(days),
    ensures
        leading_day(date_text(civil(days)) + rest) == Some(days),
{
    let date = civil(days);
    lemma_civil_exists(days);
    lemma_date_widths(date);
    reveal_strlit("-");
    let s = date_text(date) + rest;
    assert(s.subrange(0, 4) =~= decimal::padded(date.0, 4));
    assert(s.subrange(5, 7) =~= decimal::padded(date.1, 2));
    assert(s.subrange(8, 10) =~= decimal::padded(date.2, 2));
}

/// A timestamp is read back as the number of its day.
pub proof fn lemma_timestamp_read_back(secs: int)
    requires
        four_digit_year(secs / 86_400),
    ensures
        leading_day(timestamp(secs)) == Some(secs / 86_400),
{
    let rest = "T"@ + time_text(secs % 86_400) + "Z"@;
    lemma_date_read_back(secs / 86_400, rest);
    assert(timestamp(secs) =~= date_text(civil(secs / 86_400)) + rest);
}

/// Two digits in a text are the number that was written there.
proof fn lemma_two_digits(s: Seq<char>, at: int, n: int)
    requires
        0 <= n < 100,
        0 <= at,
        at + 2 <= s.len(),
        s.subrange(at, at + 2) == decimal::padded(n, 2),
    ensures
        two_digits(s, at) == n,
        decimal::is_digit(s[at]),
        decimal::is_digit(s[at + 1]),
{
    reveal_with_fuel(big::ten_pow, 3);
    decimal::lemma_padded_is_fixed(n as nat, 2);
    let f = decimal::fixed(n as nat, 2);
    reveal_with_fuel(decimal::fixed, 3);
    assert(f =~= seq![decimal::digit_char(n / 10), decimal::digit_char(n % 10)]);
    assert(s.subrange(at, at + 2)[0] == s[at]);
    assert(s.subrange(at, at + 2)[1] == s[at + 1]);
}

/// Every timestamp with a year of four digits has the form that readers ask for.
pub proof fn lemma_timestamp_form(secs: int)
    requires
        four_digit_year(secs / 86_400),
    ensures
        is_timestamp(timestamp(secs)),
{
    let date = civil(secs / 86_400);
    let time = secs % 86_400;
    lemma_civil_exists(secs / 86_400);
    lemma_date_widths(date);
    lemma_time_widths(time);
    reveal_strlit("-");
    reveal_strlit(":");
    reveal_strlit("T");
    reveal_strlit("Z");
    let s = timestamp(secs);
    let year = decimal::padded(date.0, 4);
    assert(s.subrange(0, 4) =~= year);
    assert(s.subrange(5, 7) =~= decimal::padded(date.1, 2));
    assert(s.subrange(8, 10) =~= decimal::padded(date.2, 2));
    assert(s.subrange(11, 13) =~= decimal::padded(time / 3600, 2));
    assert(s.subrange(14, 16) =~= decimal::padded((time % 3600) / 60, 2));
    assert(s.subrange(17, 19) =~= decimal::padded(time % 60, 2));
    lemma_two_digits(s, 5, date.1);
    lemma_two_digits(s, 8, date.2);
    lemma_two_digits(s, 11, time / 3600);
    lemma_two_digits(s, 14, (time % 3600) / 60);
    lemma_two_digits(s, 17, time % 60);
    assert forall|i: int| 0 <= i < 4 implies decimal::is_digit(#[trigger] s[i]) by {
        assert(s[i] == year[i]);
        assert(decimal::is_digit(year[i]));
    }
}

/// A timestamp that was written is read back as its moment.
pub proof fn lemma_stamp_read_back(secs: int)
    requires
        four_digit_year(secs / 86_400),
    ensures
        is_timestamp(timestamp(secs)),
        stamp_secs(timestamp(secs)) == secs,
{
    let s = timestamp(secs);
    let date = civil(secs / 86_400);
    let time = secs % 86_400;
    lemma_timestamp_form(secs);
    lemma_timestamp_read_back(secs);
    lemma_civil_exists(secs / 86_400);
    lemma_date_widths(date);
    lemma_time_widths(time);
    reveal_strlit(":");
    reveal_strlit("T");
    reveal_strlit("Z");
    assert(s.subrange(11, 13) =~= decimal::padded(time / 3600, 2));
    assert(s.subrange(14, 16) =~= decimal::padded((time % 3600) / 60, 2));
    assert(s.subrange(17, 19) =~= decimal::padded(time % 60, 2));
    lemma_two_digits(s, 11, time / 3600);
    lemma_two_digits(s, 14, (time % 3600) / 60);
    lemma_two_digits(s, 17, time % 60);
}

/// What lies 31 days or more before a timestamp comes before it in the order of texts too,
/// even where the month of the timestamp does not have its day.
pub proof fn lemma_month_before_stamp(secs: int, s: Seq<char>)
    requires
        is_timestamp(s),
        secs <= stamp_secs(s) - 31 * 86_400,
        four_digit_year(secs / 86_400),
    ensures
        text::text_lt(timestamp(secs), s),
{
    let days = secs / 86_400;
    let a = civil(days);
    let b = stamp_date(s);
    lemma_stamp_date(s);
    lemma_stamp_range(s);
    lemma_civil_exists(days);
    let first = (b.0, b.1, 1int);
    assert(days < day_number(b.0, b.1, 1));
    if date_lt(first, a) {
        lemma_day_number_order(first, a);
    }
    assert(date_lt(a, first));
    lemma_date_text_order(a, b);
    let rest = "T"@ + time_text(secs % 86_400) + "Z"@;
    assert(timestamp(secs) =~= date_text(a) + rest);
    text::lemma_text_lt_front(date_text(a), date_text(b), rest, s.skip(10));
}

/// The day of a time is its first ten characters, where these are ASCII.
pub proof fn lemma_day_part(day: Seq<char>, rest: Seq<char>)
    requires
        day.len() == 10,
        text::all_ascii(day),
    ensures
        day_part(day + rest) == day,
{
    text::lemma_ascii_prefix(day, rest);
}

/// The day of a timestamp is that of its date, and the same for all moments of a day.
pub proof fn lemma_day_of_timestamp(secs: int)
    requires
        four_digit_year(secs / 86_400),
    ensures
        day_part(timestamp(secs)) == date_text(civil(secs / 86_400)),
{
    let date = civil(secs / 86_400);
    let day = date_text(date);
    let s = timestamp(secs);
    lemma_timestamp_form(secs);
    lemma_civil_exists(secs / 86_400);
    lemma_date_widths(date);
    reveal_strlit("-");
    let rest = s.skip(10);
    assert(s =~= day + rest);
    assert forall|i: int| 0 <= i < day.len() implies #[trigger] day[i] <= '\u{7f}' by {
        assert(day[i] == s[i]);
        if i != 4 && i != 7 {
            assert(decimal::is_digit(s[i]));
        }
    }
    lemma_day_part(day, rest);
}

/// Six numbers written as a timestamp is.
pub open spec fn stamp_text(
    year: int,
    month: int,
    day: int,
    hour: int,
    minute: int,
    second: int,
) -> Seq<char> {
    decimal::padded(year, 4) + "-"@ + decimal::padded(month, 2) + "-"@ + decimal::padded(day, 2)
        + "T"@ + decimal::padded(hour, 2) + ":"@ + decimal::padded(minute, 2) + ":"@
        + decimal::padded(second, 2) + "Z"@
}

/// Six numbers written as a timestamp is are one exactly where the month is one of twelve,
/// the day at most the 31st, and the time one of the seconds of a day.
#[verifier::spinoff_prover]
pub proof fn lemma_which_timestamps(
    year: int,
    month: int,
    day: int,
    hour: int,
    minute: int,
    second: int,
)
    requires
        0 <= year <= 9999,
        0 <= month <= 99,
        0 <= day <= 99,
        0 <= hour <= 99,
        0 <= minute <= 99,
        0 <= second <= 99,
    ensures
        is_timestamp(stamp_text(year, month, day, hour, minute, second)) <==> 1 <= month <= 12 && 1
            <= day <= 31 && hour <= 23 && minute <= 59 && second <= 59,
{
    let s = stamp_text(year, month, day, hour, minute, second);
    reveal_strlit("-");
    reveal_strlit(":");
    reveal_strlit("T");
    reveal_strlit("Z");
    reveal_with_fuel(big::ten_pow, 5);
    decimal::lemma_padded_value(year as nat, 4);
    decimal::lemma_padded_value(month as nat, 2);
    decimal::lemma_padded_value(day as nat, 2);
    decimal::lemma_padded_value(hour as nat, 2);
    decimal::lemma_padded_value(minute as nat, 2);
    decimal::lemma_padded_value(second as nat, 2);
    let y = decimal::padded(year, 4);
    assert(s.len() == 20);
    assert(s.subrange(0, 4) =~= y);
    assert(s.subrange(5, 7) =~= decimal::padded(month, 2));
    assert(s.subrange(8, 10) =~= decimal::padded(day, 2));
    assert(s.subrange(11, 13) =~= decimal::padded(hour, 2));
    assert(s.subrange(14, 16) =~= decimal::padded(minute, 2));
    assert(s.subrange(17, 19) =~= decimal::padded(second, 2));
    lemma_two_digits(s, 5, month);
    lemma_two_digits(s, 8, day);
    lemma_two_digits(s, 11, hour);
    lemma_two_digits(s, 14, minute);
    lemma_two_digits(s, 17, second);
    assert(decimal::is_digit(y[0]) && decimal::is_digit(y[1]) && decimal::is_digit(y[2])
        && decimal::is_digit(y[3]));
    assert(s[0] == y[0] && s[1] == y[1] && s[2] == y[2] && s[3] == y[3]);
}

/// Every timestamp is six numbers written so.
#[verifier::spinoff_prover]
pub proof fn lemma_timestamp_numbers(s: Seq<char>) -> (parts: (int, int, int, int, int, int))
    requires
        is_timestamp(s),
    ensures
        s == stamp_text(parts.0, parts.1, parts.2, parts.3, parts.4, parts.5),
        0 <= parts.0 <= 9999,
        1 <= parts.1 <= 12,
        1 <= parts.2 <= 31,
        0 <= parts.3 <= 23,
        0 <= parts.4 <= 59,
        0 <= parts.5 <= 59,
{
    let y = s.subrange(0, 4);
    assert(decimal::all_digits(y)) by {
        assert forall|i: int| 0 <= i < y.len() implies decimal::is_digit(#[trigger] y[i]) by {
            assert(decimal::is_digit(s[i]));
        }
    }
    reveal_with_fuel(big::ten_pow, 5);
    decimal::lemma_fixed_digits(y);
    decimal::lemma_padded_is_fixed(decimal::digits_value(y), 4);
    assert(decimal::is_digit(s[5]) && decimal::is_digit(s[6]));
    assert(decimal::is_digit(s[8]) && decimal::is_digit(s[9]));
    assert(decimal::is_digit(s[11]) && decimal::is_digit(s[12]));
    assert(decimal::is_digit(s[14]) && decimal::is_digit(s[15]));
    assert(decimal::is_digit(s[17]) && decimal::is_digit(s[18]));
    lemma_two_digits_value(s, 5);
    lemma_two_digits_value(s, 8);
    lemma_two_digits_value(s, 11);
    lemma_two_digits_value(s, 14);
    lemma_two_digits_value(s, 17);
    reveal_strlit("-");
    reveal_strlit(":");
    reveal_strlit("T");
    reveal_strlit("Z");
    assert(s =~= y + "-"@ + s.subrange(5, 7) + "-"@ + s.subrange(8, 10) + "T"@ + s.subrange(11, 13)
        + ":"@ + s.subrange(14, 16) + ":"@ + s.subrange(17, 19) + "Z"@);
    (
        decimal::digits_value(y) as int,
        two_digits(s, 5),
        two_digits(s, 8),
        two_digits(s, 11),
        two_digits(s, 14),
        two_digits(s, 17),
    )
}

} // verus!
