//! The time of a request as written in the log: "Www Mmm dd hh:mm:ss yyyy"
//! in the server's time zone.

use vstd::prelude::*;
use crate::bytes::{append_bytes, slice_bytes};
use crate::http::{digits, digits_u64};

verus! {

/// Whether `y` is a leap year.
pub open spec fn is_leap(y: int) -> bool {
    (y % 4 == 0 && y % 100 != 0) || y % 400 == 0
}

/// The number of days of year `y`.
pub open spec fn days_in_year(y: int) -> int {
    if is_leap(y) {
        366
    } else {
        365
    }
}

/// The year and the day of that year (from 0) that lie `days` days after
/// the first day of year `y`.
pub open spec fn year_and_day(days: int, y: int) -> (int, int)
    decreases days,
{
    if days < days_in_year(y) {
        (y, days)
    } else {
        year_and_day(days - days_in_year(y), y + 1)
    }
}

/// The number of days of month `m` (from 0 for January).
pub open spec fn days_in_month(m: int, leap: bool) -> int {
    if m == 1 {
        if leap {
            29
        } else {
            28
        }
    } else if m == 3 || m == 5 || m == 8 || m == 10 {
        30
    } else {
        31
    }
}

/// The month (from 0) and the day of that month (from 0) of the day `doy`
/// (from 0) of a year, counting from month `m`.
pub open spec fn month_and_day(doy: int, m: int, leap: bool) -> (int, int)
    decreases 12 - m,
{
    if m >= 11 || doy < days_in_month(m, leap) {
        (m, doy)
    } else {
        month_and_day(doy - days_in_month(m, leap), m + 1, leap)
    }
}

/// The names of the days of the week, Sunday first, three bytes each.
pub open spec fn weekday_names() -> Seq<u8> {
    seq![83u8, 117u8, 110u8, 77u8, 111u8, 110u8, 84u8, 117u8, 101u8, 87u8, 101u8, 100u8, 84u8, 104u8, 117u8, 70u8, 114u8, 105u8, 83u8, 97u8, 116u8]
}

/// The names of the months, January first, three bytes each.
pub open spec fn month_names() -> Seq<u8> {
    seq![74u8, 97u8, 110u8, 70u8, 101u8, 98u8, 77u8, 97u8, 114u8, 65u8, 112u8, 114u8, 77u8, 97u8, 121u8, 74u8, 117u8, 110u8, 74u8, 117u8, 108u8, 65u8, 117u8, 103u8, 83u8, 101u8, 112u8, 79u8, 99u8, 116u8, 78u8, 111u8, 118u8, 68u8, 101u8, 99u8]
}

/// `n` (below a hundred) in two digits, the first a space when zero.
pub open spec fn space_padded(n: nat) -> Seq<u8> {
    if n < 10 {
        seq![32u8] + digits(n)
    } else {
        digits(n)
    }
}

/// `n` (below a hundred) in two digits.
pub open spec fn zero_padded(n: nat) -> Seq<u8> {
    if n < 10 {
        seq![48u8] + digits(n)
    } else {
        digits(n)
    }
}

/// The time `secs` seconds after 1970-01-01 00:00:00 in universal time,
/// as "Www Mmm dd hh:mm:ss yyyy" (the day of the month padded with a
/// space).
pub open spec fn ctime(secs: nat) -> Seq<u8> {
    let days = secs / 86400;
    let rem = secs % 86400;
    let (y, doy) = year_and_day(days as int, 1970);
    let (m, d) = month_and_day(doy, 0, is_leap(y));
    let wd: int = ((days + 4) % 7) as int;
    weekday_names().subrange(3 * wd, 3 * wd + 3) + seq![32u8] + month_names().subrange(3 * m, 3 * m + 3)
        + seq![32u8] + space_padded((d + 1) as nat) + seq![32u8] + zero_padded(rem / 3600) + seq![58u8]
        + zero_padded((rem % 3600) / 60) + seq![58u8] + zero_padded(rem % 60) + seq![32u8] + digits(
        y as nat,
    )
}

proof fn lemma_year_and_day(days: int, y: int)
    requires
        days >= 0,
    ensures
        year_and_day(days, y).0 >= y,
        0 <= year_and_day(days, y).1 < days_in_year(year_and_day(days, y).0),
    decreases days,
{
    if days >= days_in_year(y) {
        lemma_year_and_day(days - days_in_year(y), y + 1);
    }
}

proof fn lemma_month_and_day(doy: int, m: int, leap: bool)
    requires
        0 <= m <= 11,
        doy >= 0,
        doy < (if leap { 366int } else { 365int }) - days_before(m, leap),
    ensures
        m <= month_and_day(doy, m, leap).0 <= 11,
        0 <= month_and_day(doy, m, leap).1 < 31,
    decreases 12 - m,
{
    reveal_with_fuel(days_before, 12);
    if m < 11 && doy >= days_in_month(m, leap) {
        lemma_month_and_day(doy - days_in_month(m, leap), m + 1, leap);
    }
}

/// The days of the months before month `m`.
spec fn days_before(m: int, leap: bool) -> int
    decreases m,
{
    if m <= 0 {
        0
    } else {
        days_before(m - 1, leap) + days_in_month(m - 1, leap)
    }
}

fn year_length(y: u64) -> (r: u64)
    ensures
        r == days_in_year(y as int),
{
    if (y % 4 == 0 && y % 100 != 0) || y % 400 == 0 {
        366
    } else {
        365
    }
}

fn month_length(m: u64, leap: bool) -> (r: u64)
    ensures
        r == days_in_month(m as int, leap),
{
    if m == 1 {
        if leap {
            29
        } else {
            28
        }
    } else if m == 3 || m == 5 || m == 8 || m == 10 {
        30
    } else {
        31
    }
}

fn two_digits(n: u64, pad: u8) -> (r: Vec<u8>)
    requires
        n < 100,
        pad == 32u8 || pad == 48u8,
    ensures
        pad == 32u8 ==> r@ == space_padded(n as nat),
        pad == 48u8 ==> r@ == zero_padded(n as nat),
{
    if n < 10 {
        let mut r: Vec<u8> = vec![pad];
        append_bytes(&mut r, &digits_u64(n));
        assert(r@ =~= seq![pad] + digits(n as nat));
        r
    } else {
        digits_u64(n)
    }
}

/// The time `secs` seconds after 1970-01-01 00:00:00 in universal time,
/// as "Www Mmm dd hh:mm:ss yyyy".
#[verifier::spinoff_prover]
#[verifier::rlimit(40)]
pub fn ctime_utc(secs: u64) -> (r: Vec<u8>)
    ensures
        r@ == ctime(secs as nat),
{
    let days = secs / 86400;
    let rem = secs % 86400;
    let mut y: u64 = 1970;
    let mut left: u64 = days;
    while left >= year_length(y)
        invariant
            year_and_day(left as int, y as int) == year_and_day(days as int, 1970),
            y + left <= 1970 + days,
            days <= u64::MAX / 86400,
        decreases left,
    {
        let len = year_length(y);
        left = left - len;
        y = y + 1;
    }
    let leap = (y % 4 == 0 && y % 100 != 0) || y % 400 == 0;
    proof {
        lemma_year_and_day(days as int, 1970);
        assert(year_and_day(left as int, y as int) == (y as int, left as int));
    }
    let mut m: u64 = 0;
    let mut d: u64 = left;
    proof {
        assert(days_before(0, leap) == 0);
    }
    while m < 11 && d >= month_length(m, leap)
        invariant
            m <= 11,
            month_and_day(d as int, m as int, leap) == month_and_day(left as int, 0, leap),
            d < (if leap { 366int } else { 365int }) - days_before(m as int, leap),
            leap == is_leap(y as int),
        decreases 12 - m,
    {
        let len = month_length(m, leap);
        d = d - len;
        m = m + 1;
    }
    proof {
        lemma_month_and_day(left as int, 0, leap);
        assert(month_and_day(d as int, m as int, leap) == (m as int, d as int));
    }
    let wd = (days + 4) % 7;
    let weekdays: Vec<u8> = vec![83u8, 117u8, 110u8, 77u8, 111u8, 110u8, 84u8, 117u8, 101u8, 87u8, 101u8, 100u8, 84u8, 104u8, 117u8, 70u8, 114u8, 105u8, 83u8, 97u8, 116u8];
    let months: Vec<u8> = vec![74u8, 97u8, 110u8, 70u8, 101u8, 98u8, 77u8, 97u8, 114u8, 65u8, 112u8, 114u8, 77u8, 97u8, 121u8, 74u8, 117u8, 110u8, 74u8, 117u8, 108u8, 65u8, 117u8, 103u8, 83u8, 101u8, 112u8, 79u8, 99u8, 116u8, 78u8, 111u8, 118u8, 68u8, 101u8, 99u8];
    assert(weekdays@ =~= weekday_names());
    assert(months@ =~= month_names());
    let mut r = slice_bytes(&weekdays, (3 * wd) as usize, (3 * wd + 3) as usize);
    r.push(32u8);
    append_bytes(&mut r, &slice_bytes(&months, (3 * m) as usize, (3 * m + 3) as usize));
    r.push(32u8);
    append_bytes(&mut r, &two_digits(d + 1, 32u8));
    r.push(32u8);
    append_bytes(&mut r, &two_digits(rem / 3600, 48u8));
    r.push(58u8);
    append_bytes(&mut r, &two_digits((rem % 3600) / 60, 48u8));
    r.push(58u8);
    append_bytes(&mut r, &two_digits(rem % 60, 48u8));
    r.push(32u8);
    append_bytes(&mut r, &digits_u64(y));
    r
}

/// The value of an ASCII digit.
pub open spec fn digit(b: u8) -> int {
    b - 48
}

/// Whether `b` is an ASCII digit.
pub open spec fn is_digit(b: u8) -> bool {
    48 <= b <= 57
}

/// The offset of a time zone east of universal time, in seconds, from its
/// "+hhmm" or "-hhmm" text (a trailing newline allowed); `None` for any
/// other text.
pub open spec fn zone_offset(t: Seq<u8>) -> Option<int> {
    let u = if t.len() == 6 && t[5] == 10u8 {
        t.subrange(0, 5)
    } else {
        t
    };
    if u.len() == 5 && (u[0] == 43u8 || u[0] == 45u8) && is_digit(u[1]) && is_digit(u[2])
        && is_digit(u[3]) && is_digit(u[4]) {
        let secs = (digit(u[1]) * 10 + digit(u[2])) * 3600 + (digit(u[3]) * 10 + digit(u[4])) * 60;
        Some(
            if u[0] == 45u8 {
                -secs
            } else {
                secs
            },
        )
    } else {
        None
    }
}

/// The offset of a time zone east of universal time, in seconds, from its
/// "+hhmm" or "-hhmm" text.
pub fn parse_zone_offset(t: &Vec<u8>) -> (r: Option<i64>)
    ensures
        match r {
            Some(o) => zone_offset(t@) == Some(o as int),
            None => zone_offset(t@) is None,
        },
{
    let n: usize = if t.len() == 6 && t[5] == 10u8 {
        5
    } else {
        t.len()
    };
    if n != 5 {
        return None;
    }
    let (s0, s1, s2, s3, s4) = (t[0], t[1], t[2], t[3], t[4]);
    if !(s0 == 43u8 || s0 == 45u8) {
        return None;
    }
    if s1 < 48u8 || s1 > 57u8 || s2 < 48u8 || s2 > 57u8 || s3 < 48u8 || s3 > 57u8 || s4 < 48u8
        || s4 > 57u8 {
        return None;
    }
    let hours: i64 = ((s1 - 48u8) as i64) * 10 + ((s2 - 48u8) as i64);
    let minutes: i64 = ((s3 - 48u8) as i64) * 10 + ((s4 - 48u8) as i64);
    let secs: i64 = hours * 3600 + minutes * 60;
    if s0 == 45u8 {
        Some(-secs)
    } else {
        Some(secs)
    }
}

/// The time `secs` seconds after 1970-01-01 00:00:00 universal time, in a
/// time zone `offset` seconds east of universal time, as
/// "Www Mmm dd hh:mm:ss yyyy".
pub open spec fn local_ctime(secs: int, offset: int) -> Seq<u8> {
    ctime((secs + offset) as nat)
}

/// The time `secs` seconds after 1970-01-01 00:00:00 universal time, in a
/// time zone `offset` seconds east of universal time, as
/// "Www Mmm dd hh:mm:ss yyyy".
pub fn ctime_local(secs: u64, offset: i64) -> (r: Vec<u8>)
    requires
        0 <= secs + offset <= u64::MAX,
    ensures
        r@ == local_ctime(secs as int, offset as int),
{
    let local: u64 = if offset >= 0 {
        secs + (offset as u64)
    } else {
        secs - ((0i128 - (offset as i128)) as u64)
    };
    ctime_utc(local)
}

/// The day of the year (from 0) on which month `m` (from 0 for January)
/// begins, by the Gregorian calendar; `m` == 12 gives the year's length.
pub open spec fn month_start(m: int, leap: bool) -> int {
    let extra: int = if leap && m >= 2 { 1 } else { 0 };
    extra + if m <= 0 {
        0int
    } else if m == 1 {
        31int
    } else if m == 2 {
        59int
    } else if m == 3 {
        90int
    } else if m == 4 {
        120int
    } else if m == 5 {
        151int
    } else if m == 6 {
        181int
    } else if m == 7 {
        212int
    } else if m == 8 {
        243int
    } else if m == 9 {
        273int
    } else if m == 10 {
        304int
    } else if m == 11 {
        334int
    } else {
        365int
    }
}

/// A day of the year falls in the Gregorian month that holds it: the month
/// found for day `doy` begins on or before it and the next month begins
/// after it, and the day of the month counts from that month's start.
pub proof fn law_days_fall_in_calendar_months(doy: int, leap: bool)
    requires
        0 <= doy < (if leap { 366int } else { 365int }),
    ensures
        0 <= month_and_day(doy, 0, leap).0 < 12,
        month_start(month_and_day(doy, 0, leap).0, leap) <= doy < month_start(
            month_and_day(doy, 0, leap).0 + 1,
            leap,
        ),
        month_and_day(doy, 0, leap).1 == doy - month_start(month_and_day(doy, 0, leap).0, leap),
{
    lemma_month_walk(doy, 0, leap);
}

proof fn lemma_month_walk(doy: int, m: int, leap: bool)
    requires
        0 <= m <= 11,
        0 <= doy,
        doy + month_start(m, leap) < (if leap { 366int } else { 365int }),
    ensures
        m <= month_and_day(doy, m, leap).0 < 12,
        month_start(month_and_day(doy, m, leap).0, leap) <= doy + month_start(m, leap) < month_start(
            month_and_day(doy, m, leap).0 + 1,
            leap,
        ),
        month_and_day(doy, m, leap).1 == doy + month_start(m, leap) - month_start(
            month_and_day(doy, m, leap).0,
            leap,
        ),
    decreases 12 - m,
{
    assert(month_start(m + 1, leap) == month_start(m, leap) + days_in_month(m, leap));
    if m < 11 && doy >= days_in_month(m, leap) {
        lemma_month_walk(doy - days_in_month(m, leap), m + 1, leap);
    }
}

/// Each year has the days of its twelve months: 366 in a leap year and 365
/// otherwise, and a leap year is one divisible by 4 but not by 100, or by
/// 400.
pub proof fn law_year_lengths(y: int)
    ensures
        days_in_year(y) == month_start(12, is_leap(y)),
        days_in_year(y) == (if (y % 4 == 0 && y % 100 != 0) || y % 400 == 0 { 366int } else { 365int }),
{
}

} // verus!
