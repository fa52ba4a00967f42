//! Rendering of file timestamps: epoch seconds to a calendar date and a
//! fixed-width text form.
use crate::strutil::{chars_to_string, dec_spec};
use vstd::prelude::*;

verus! {

/// Whether a year is a leap year of the Gregorian calendar.
pub open spec fn leap_spec(y: int) -> bool {
    (y % 4 == 0 && y % 100 != 0) || y % 400 == 0
}

pub fn is_leap(year: i64) -> (r: bool)
    requires
        year >= 0,
    ensures
        r == leap_spec(year as int),
{
    (year % 4 == 0 && year % 100 != 0) || year % 400 == 0
}

/// Days in a year.
pub open spec fn year_len(y: int) -> int {
    if leap_spec(y) {
        366
    } else {
        365
    }
}

/// Days between the epoch and the start of year `y`.
pub open spec fn days_before_year(y: int) -> int
    recommends
        y >= 1970,
    decreases y - 1970,
    when y >= 1970
{
    if y <= 1970 {
        0
    } else {
        days_before_year(y - 1) + year_len(y - 1)
    }
}

/// Days in month `m` (one-based) of year `y`.
pub open spec fn month_len(y: int, m: int) -> int {
    if m == 2 {
        if leap_spec(y) {
            29
        } else {
            28
        }
    } else if m == 4 || m == 6 || m == 9 || m == 11 {
        30
    } else {
        31
    }
}

/// Days between the start of year `y` and the start of month `m`
/// (one-based).
pub open spec fn days_before_month(y: int, m: int) -> int
    recommends
        1 <= m <= 13,
    decreases m,
    when m >= 1
{
    if m <= 1 {
        0
    } else {
        days_before_month(y, m - 1) + month_len(y, m - 1)
    }
}

fn year_len_exec(year: i64) -> (r: i64)
    requires
        year >= 0,
    ensures
        r == year_len(year as int),
{
    if is_leap(year) {
        366
    } else {
        365
    }
}

fn month_len_exec(year: i64, m: i64) -> (r: i64)
    requires
        year >= 0,
        1 <= m <= 12,
    ensures
        r == month_len(year as int, m as int),
{
    if m == 2 {
        if is_leap(year) {
            29
        } else {
            28
        }
    } else if m == 4 || m == 6 || m == 9 || m == 11 {
        30
    } else {
        31
    }
}

proof fn lemma_months_fill_year(y: int, m: int)
    requires
        1 <= m <= 13,
    ensures
        days_before_month(y, m) <= days_before_month(y, 13),
        days_before_month(y, 13) == year_len(y),
    decreases 13 - m,
{
    if m < 13 {
        lemma_months_fill_year(y, m + 1);
        assert(days_before_month(y, m + 1) == days_before_month(y, m) + month_len(y, m));
        assert(month_len(y, m) >= 0);
    } else {
        assert(days_before_month(y, 13) == 31 + month_len(y, 2) + 31 + 30 + 31 + 30 + 31 + 31 + 30
            + 31 + 30 + 31) by {
            reveal_with_fuel(days_before_month, 14);
        }
    }
}

proof fn lemma_year_days_lower(y: int)
    requires
        y >= 1970,
    ensures
        days_before_year(y) >= 365 * (y - 1970),
    decreases y - 1970,
{
    if y > 1970 {
        lemma_year_days_lower(y - 1);
    }
}

/// Converts days since the epoch to the calendar date `(year, month, day)`
/// (month and day one-based) that contains them: the days before that date
/// plus the day's offset within its month give back the input.
#[verifier::loop_isolation(false)]
pub fn days_to_ymd(days: i64) -> (r: (i64, i64, i64))
    requires
        0 <= days,
    ensures
        r.0 >= 1970,
        365 * (r.0 - 1970) <= days,
        1 <= r.1 <= 12,
        1 <= r.2 <= month_len(r.0 as int, r.1 as int),
        days == days_before_year(r.0 as int) + days_before_month(r.0 as int, r.1 as int) + (r.2
            - 1),
{
    let mut days = days;
    let ghost days0 = days as int;
    let mut year: i64 = 1970;
    while days >= year_len_exec(year)
        invariant
            year >= 1970,
            0 <= days,
            days0 == days_before_year(year as int) + days,
            365 * (year - 1970) <= days0,
        decreases days,
    {
        let days_in_year: i64 = year_len_exec(year);
        days -= days_in_year;
        year += 1;
        proof {
            lemma_year_days_lower(year as int);
        }
    }
    let mut month: i64 = 1;
    proof {
        lemma_months_fill_year(year as int, 1);
    }
    while month < 12 && days >= month_len_exec(year, month)
        invariant
            1 <= month <= 12,
            0 <= days,
            days0 == days_before_year(year as int) + days_before_month(year as int, month as int)
                + days,
            days + days_before_month(year as int, month as int) < year_len(year as int),
        decreases 12 - month,
    {
        days -= month_len_exec(year, month);
        month += 1;
    }
    proof {
        if month == 12 {
            lemma_months_fill_year(year as int, 12);
            assert(days < month_len(year as int, 12));
        }
    }
    (year, month, days + 1)
}

/// A numeral padded with leading zeros to at least the given width.
pub open spec fn dec_pad(n: nat, w: nat) -> Seq<char> {
    if dec_spec(n).len() >= w {
        dec_spec(n)
    } else {
        Seq::new((w - dec_spec(n).len()) as nat, |i: int| '0') + dec_spec(n)
    }
}

fn u64_to_padded(n: u64, w: usize) -> (s: Vec<char>)
    requires
        w <= 8,
    ensures
        s@ == dec_pad(n as nat, w as nat),
{
    let digits = crate::strutil::u64_to_digits(n);
    let mut v: Vec<char> = Vec::new();
    let dl = digits.len();
    let mut k: usize = 0;
    while k + dl < w
        invariant
            w <= 8,
            dl == dec_spec(n as nat).len(),
            v@ =~= Seq::new(k as nat, |i: int| '0'),
            k == 0 || k + dl <= w,
        decreases w - k,
    {
        v.push('0');
        k += 1;
        proof {
            assert(v@ =~= Seq::new(k as nat, |i: int| '0'));
        }
    }
    let mut d = digits;
    v.append(&mut d);
    proof {
        assert(v@ =~= dec_pad(n as nat, w as nat));
    }
    v
}

/// Renders epoch seconds as `YYYY-MM-DD hh:mm:ss UTC`.
#[verifier::rlimit(50)]
pub fn format_system_time_utc(secs: u64) -> (s: String)
    ensures
        ({
            let days = secs as int / 86400;
            let hour = (secs as int % 86400) / 3600;
            let minute = ((secs as int % 86400) % 3600) / 60;
            let second = ((secs as int % 86400) % 3600) % 60;
            exists|y: int, m: int, d: int|
                #![trigger days_before_year(y), days_before_month(y, m), dec_pad(d as nat, 2)]
                {
                    &&& y >= 1970
                    &&& 1 <= m <= 12
                    &&& 1 <= d <= month_len(y, m)
                    &&& days == days_before_year(y) + days_before_month(y, m) + (d - 1)
                    &&& s@ == dec_pad(y as nat, 4) + "-"@ + dec_pad(m as nat, 2) + "-"@ + dec_pad(
                        d as nat,
                        2,
                    ) + " "@ + dec_pad(hour as nat, 2) + ":"@ + dec_pad(minute as nat, 2) + ":"@
                        + dec_pad(second as nat, 2) + " UTC"@
                }
        }),
{
    let days = secs / 86400;
    let secs_of_day = secs % 86400;
    let hour = secs_of_day / 3600;
    let minute = (secs_of_day % 3600) / 60;
    let second = (secs_of_day % 3600) % 60;
    proof {
        assert(secs / 86400 <= 0xffff_ffff_ffff_ffffu64 / 86400);
    }
    let (year, month, day) = days_to_ymd(days as i64);
    let mut out: Vec<char> = u64_to_padded(year as u64, 4);
    out.push('-');
    let mut part = u64_to_padded(month as u64, 2);
    out.append(&mut part);
    out.push('-');
    let mut part = u64_to_padded(day as u64, 2);
    out.append(&mut part);
    out.push(' ');
    let mut part = u64_to_padded(hour, 2);
    out.append(&mut part);
    out.push(':');
    let mut part = u64_to_padded(minute, 2);
    out.append(&mut part);
    out.push(':');
    let mut part = u64_to_padded(second, 2);
    out.append(&mut part);
    out.push(' ');
    out.push('U');
    out.push('T');
    out.push('C');
    let s = chars_to_string(out.as_slice());
    proof {
        reveal_strlit("-");
        reveal_strlit(" ");
        reveal_strlit(":");
        reveal_strlit(" UTC");
        assert(s@ =~= dec_pad(year as nat, 4) + "-"@ + dec_pad(month as nat, 2) + "-"@ + dec_pad(
            day as nat,
            2,
        ) + " "@ + dec_pad(hour as nat, 2) + ":"@ + dec_pad(minute as nat, 2) + ":"@ + dec_pad(
            second as nat,
            2,
        ) + " UTC"@);
    }
    s
}

} // verus!
