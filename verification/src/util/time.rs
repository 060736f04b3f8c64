//! Rendering of a wall-clock instant, given as seconds since the Unix
//! epoch, into the log timestamp: a 12-hour clock time followed by the UTC
//! date as day, month abbreviation and year.

use vstd::prelude::*;
use vstd::string::*;
use crate::text::{decimal_chars, u64_string};

verus! {

pub open spec fn is_leap_year(y: int) -> bool {
    y % 4 == 0 && (y % 100 != 0 || y % 400 == 0)
}

pub open spec fn days_in_year(y: int) -> int {
    if is_leap_year(y) {
        366
    } else {
        365
    }
}

pub open spec fn days_in_month(y: int, m: int) -> int {
    if m == 2 {
        if is_leap_year(y) {
            29
        } else {
            28
        }
    } else if m == 4 || m == 6 || m == 9 || m == 11 {
        30
    } else {
        31
    }
}

/// Walks whole years forward from the start of year `y`: the year that the
/// day `days` days later falls in, and the remaining days into that year.
pub open spec fn year_and_day(days: int, y: int) -> (int, int)
    decreases days,
{
    if days < 0 || days < days_in_year(y) {
        (y, days)
    } else {
        year_and_day(days - days_in_year(y), y + 1)
    }
}

/// Walks whole months forward from month `m` of year `y`: the month that
/// the day `days` days later falls in, and the remaining days into it.
pub open spec fn month_and_day(days: int, y: int, m: int) -> (int, int)
    decreases 12 - m,
{
    if m >= 12 || days < days_in_month(y, m) {
        (m, days)
    } else {
        month_and_day(days - days_in_month(y, m), y, m + 1)
    }
}

/// The UTC date `days` days after 1970-01-01: year, month and day of month.
pub open spec fn civil_date(days: int) -> (int, int, int) {
    let yd = year_and_day(days, 1970);
    let md = month_and_day(yd.1, yd.0, 1);
    (yd.0, md.0, md.1 + 1)
}

fn leap(y: u64) -> (r: bool)
    ensures
        r == is_leap_year(y as int),
{
    y % 4 == 0 && (y % 100 != 0 || y % 400 == 0)
}

fn year_len(y: u64) -> (r: u64)
    ensures
        r == days_in_year(y as int),
{
    if leap(y) {
        366
    } else {
        365
    }
}

fn month_len(y: u64, m: u64) -> (r: u64)
    ensures
        r == days_in_month(y as int, m as int),
{
    if m == 2 {
        if leap(y) {
            29
        } else {
            28
        }
    } else if m == 4 || m == 6 || m == 9 || m == 11 {
        30
    } else {
        31
    }
}

/// Computes the UTC date of a day count since 1970-01-01.
#[verifier::loop_isolation(false)]
pub fn civil_date_of(days: u64) -> (r: (u64, u64, u64))
    ensures
        (r.0 as int, r.1 as int, r.2 as int) == civil_date(days as int),
        1 <= r.1 <= 12,
{
    let mut y: u64 = 1970;
    let mut d: u64 = days;
    while d >= year_len(y)
        invariant
            year_and_day(days as int, 1970) == year_and_day(d as int, y as int),
            d <= days,
            1970 <= y,
            365 * (y - 1970) <= days - d,
        decreases d,
    {
        d = d - year_len(y);
        proof {
            assert(y - 1970 <= u64::MAX as int / 365) by (nonlinear_arith)
                requires
                    365 * (y - 1970) <= u64::MAX as int,
                    1970 <= y,
            ;
        }
        y = y + 1;
    }
    let mut m: u64 = 1;
    let ghost year_rest = d;
    while m < 12 && d >= month_len(y, m)
        invariant
            month_and_day(year_rest as int, y as int, 1) == month_and_day(d as int, y as int, m as int),
            d <= year_rest,
            1 <= m <= 12,
        decreases 12 - m,
    {
        d = d - month_len(y, m);
        m = m + 1;
    }
    (y, m, d + 1)
}

/// A number padded with a zero to at least two digits.
pub open spec fn pad2(n: nat) -> Seq<char> {
    if n < 10 {
        seq!['0'] + decimal_chars(n)
    } else {
        decimal_chars(n)
    }
}

/// A day of the month padded with a space to at least two characters.
pub open spec fn day_pad(d: nat) -> Seq<char> {
    if d < 10 {
        seq![' '] + decimal_chars(d)
    } else {
        decimal_chars(d)
    }
}

/// The hour on the 12-hour clock.
pub open spec fn hour12(h: nat) -> nat {
    if h % 12 == 0 {
        12
    } else {
        h % 12
    }
}

/// The clock period label: AM before noon, PM from noon on.
pub open spec fn am_pm(h: nat) -> Seq<char> {
    if h < 12 {
        "AM"@
    } else {
        "PM"@
    }
}

/// The month's three-letter abbreviation.
pub open spec fn month_abbrev(m: int) -> Seq<char> {
    if m == 1 {
        "Jan"@
    } else if m == 2 {
        "Feb"@
    } else if m == 3 {
        "Mar"@
    } else if m == 4 {
        "Apr"@
    } else if m == 5 {
        "May"@
    } else if m == 6 {
        "Jun"@
    } else if m == 7 {
        "Jul"@
    } else if m == 8 {
        "Aug"@
    } else if m == 9 {
        "Sep"@
    } else if m == 10 {
        "Oct"@
    } else if m == 11 {
        "Nov"@
    } else {
        "Dec"@
    }
}

/// The timestamp text for a wall-clock instant: `hh:mm:ss AM dd-Mon-yyyy`,
/// with the hour on the 12-hour clock and the date in UTC.
pub open spec fn timestamp_chars(secs: nat) -> Seq<char> {
    let rem = secs % 86400;
    let date = civil_date((secs / 86400) as int);
    pad2(hour12(rem / 3600)) + ":"@ + pad2((rem / 60) % 60) + ":"@ + pad2(rem % 60) + " "@
        + am_pm(rem / 3600) + " "@ + day_pad(date.2 as nat) + "-"@ + month_abbrev(date.1) + "-"@
        + decimal_chars(date.0 as nat)
}

fn pad2_str(n: u64) -> (r: String)
    ensures
        r@ == pad2(n as nat),
{
    if n < 10 {
        let mut r = "0".to_owned();
        let d = u64_string(n);
        r.append(d.as_str());
        proof {
            reveal_strlit("0");
            assert("0"@ =~= seq!['0']);
        }
        r
    } else {
        u64_string(n)
    }
}

fn day_pad_str(n: u64) -> (r: String)
    ensures
        r@ == day_pad(n as nat),
{
    if n < 10 {
        let mut r = " ".to_owned();
        let d = u64_string(n);
        r.append(d.as_str());
        proof {
            reveal_strlit(" ");
            assert(" "@ =~= seq![' ']);
        }
        r
    } else {
        u64_string(n)
    }
}

fn month_abbrev_str(m: u64) -> (r: &'static str)
    requires
        1 <= m <= 12,
    ensures
        r@ == month_abbrev(m as int),
{
    proof {
        reveal_strlit("Jan");
        reveal_strlit("Feb");
        reveal_strlit("Mar");
        reveal_strlit("Apr");
        reveal_strlit("May");
        reveal_strlit("Jun");
        reveal_strlit("Jul");
        reveal_strlit("Aug");
        reveal_strlit("Sep");
        reveal_strlit("Oct");
        reveal_strlit("Nov");
        reveal_strlit("Dec");
    }
    if m == 1 {
        "Jan"
    } else if m == 2 {
        "Feb"
    } else if m == 3 {
        "Mar"
    } else if m == 4 {
        "Apr"
    } else if m == 5 {
        "May"
    } else if m == 6 {
        "Jun"
    } else if m == 7 {
        "Jul"
    } else if m == 8 {
        "Aug"
    } else if m == 9 {
        "Sep"
    } else if m == 10 {
        "Oct"
    } else if m == 11 {
        "Nov"
    } else {
        "Dec"
    }
}

/// Renders the timestamp of a wall-clock instant given as seconds since
/// the Unix epoch.
pub fn format_timestamp(secs: u64) -> (r: String)
    ensures
        r@ == timestamp_chars(secs as nat),
{
    let rem = secs % 86400;
    let date = civil_date_of(secs / 86400);
    let hour = rem / 3600;
    let h12: u64 = if hour % 12 == 0 {
        12
    } else {
        hour % 12
    };
    let mut r = pad2_str(h12);
    r.append(":");
    let minute = pad2_str((rem / 60) % 60);
    r.append(minute.as_str());
    r.append(":");
    let second = pad2_str(rem % 60);
    r.append(second.as_str());
    r.append(" ");
    if hour < 12 {
        r.append("AM");
    } else {
        r.append("PM");
    }
    r.append(" ");
    let day = day_pad_str(date.2);
    r.append(day.as_str());
    r.append("-");
    r.append(month_abbrev_str(date.1));
    r.append("-");
    let year = u64_string(date.0);
    r.append(year.as_str());
    proof {
        assert(r@ =~= timestamp_chars(secs as nat));
    }
    r
}

} // verus!
