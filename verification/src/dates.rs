//! Calendar arithmetic: Unix seconds to a UTC date and time, and the
//! timestamp formats the views and the cache use.

use vstd::prelude::*;
use crate::textutil::{digits, u64_digits, repeat, push_repeat};
use crate::unicode::{push_char, push_str, chars_of};

verus! {

pub open spec fn leap(y: int) -> bool {
    (y % 4 == 0 && y % 100 != 0) || y % 400 == 0
}

pub open spec fn year_len(y: int) -> int {
    if leap(y) { 366 } else { 365 }
}

/// Walking whole years from `y`: the year that `days` falls in and the day
/// of that year (both counted from zero days into year `y`).
pub open spec fn year_of(days: int, y: int) -> (int, int)
    decreases days,
{
    if days < 0 || days < year_len(y) {
        (y, days)
    } else {
        year_of(days - year_len(y), y + 1)
    }
}

/// Days in month `i` (zero-based) of a year.
pub open spec fn month_len(i: int, is_leap: bool) -> int {
    if i == 1 {
        if is_leap { 29 } else { 28 }
    } else if i == 3 || i == 5 || i == 8 || i == 10 {
        30
    } else {
        31
    }
}

/// Month and day (both one-based) of day `rem` counted from month `i`.
pub open spec fn month_day(rem: int, is_leap: bool, i: int) -> (int, int)
    decreases 12 - i,
{
    if i >= 12 {
        (12, 31)
    } else if rem < month_len(i, is_leap) {
        (i + 1, rem + 1)
    } else {
        month_day(rem - month_len(i, is_leap), is_leap, i + 1)
    }
}

/// `(year, month, day, hour, minute, second)` in UTC of `secs` seconds after
/// 1970-01-01T00:00:00Z.
pub open spec fn utc_parts(secs: int) -> (int, int, int, int, int, int) {
    let days = secs / 86400;
    let (y, doy) = year_of(days, 1970);
    let (m, d) = month_day(doy, leap(y), 0);
    (y, m, d, (secs / 3600) % 24, (secs / 60) % 60, secs % 60)
}

/// Days from the start of year `from` to the start of year `to`.
pub open spec fn days_between_years(from: int, to: int) -> int
    decreases to - from,
{
    if to <= from {
        0
    } else {
        days_between_years(from, to - 1) + year_len(to - 1)
    }
}

/// Days in the months before month `m` (one-based).
pub open spec fn days_before_month(m: int, is_leap: bool) -> int
    decreases m,
{
    if m <= 1 {
        0
    } else {
        days_before_month(m - 1, is_leap) + month_len(m - 2, is_leap)
    }
}

fn is_leap_year(year: u64) -> (r: bool)
    ensures
        r == leap(year as int),
{
    (year % 4 == 0 && year % 100 != 0) || year % 400 == 0
}

fn year_days(year: u64) -> (r: u64)
    ensures
        r as int == year_len(year as int),
{
    if is_leap_year(year) { 366 } else { 365 }
}

fn days_to_year_and_doy(days: u64) -> (r: (u64, u64))
    ensures
        (r.0 as int, r.1 as int) == year_of(days as int, 1970),
{
    let mut d = days;
    let mut year: u64 = 1970;
    let mut len: u64 = year_days(year);
    while d >= len
        invariant
            year_of(days as int, 1970) == year_of(d as int, year as int),
            len as int == year_len(year as int),
            year >= 1970,
            year <= 1970 + (days - d) / 365,
            d <= days,
        decreases d,
    {
        d = d - len;
        year = year + 1;
        len = year_days(year);
    }
    (year, d)
}

fn doy_to_month_day(doy: u64, is_leap: bool) -> (r: (u64, u64))
    ensures
        (r.0 as int, r.1 as int) == month_day(doy as int, is_leap, 0),
{
    let mut remaining = doy;
    let mut i: u64 = 0;
    while i < 12
        invariant
            i <= 12,
            remaining <= doy,
            month_day(doy as int, is_leap, 0) == month_day(remaining as int, is_leap, i as int),
        decreases 12 - i,
    {
        let d: u64 = if i == 1 {
            if is_leap { 29 } else { 28 }
        } else if i == 3 || i == 5 || i == 8 || i == 10 {
            30
        } else {
            31
        };
        if remaining < d {
            return (i + 1, remaining + 1);
        }
        remaining = remaining - d;
        i += 1;
    }
    (12, 31)
}

/// `(year, month, day, hour, minute, second)` in UTC of Unix time `secs`.
pub fn secs_to_utc_parts(secs: u64) -> (r: (u64, u64, u64, u64, u64, u64))
    ensures
        (r.0 as int, r.1 as int, r.2 as int, r.3 as int, r.4 as int, r.5 as int) == utc_parts(secs as int),
{
    let sec = secs % 60;
    let mins = secs / 60;
    let min = mins % 60;
    let hours = mins / 60;
    let hour = hours % 24;
    let days = hours / 24;
    proof {
        assert(mins == secs / 60);
        assert(hours as int == (secs as int / 60) / 60);
        assert((secs as int / 60) / 60 == secs as int / 3600) by (nonlinear_arith)
            requires secs >= 0;
        assert(days as int == (secs as int / 3600) / 24);
        assert((secs as int / 3600) / 24 == secs as int / 86400) by (nonlinear_arith)
            requires secs >= 0;
    }
    let (year, doy) = days_to_year_and_doy(days);
    let (month, day) = doy_to_month_day(doy, is_leap_year(year));
    (year, month, day, hour, min, sec)
}

proof fn lemma_year_of(days: int, y: int)
    requires
        days >= 0,
    ensures
        ({
            let (yy, doy) = year_of(days, y);
            yy >= y && 0 <= doy < year_len(yy) && days == days_between_years(y, yy) + doy
        }),
    decreases days,
{
    if days >= year_len(y) {
        lemma_year_of(days - year_len(y), y + 1);
        let (yy, doy) = year_of(days, y);
        lemma_days_between_shift(y, yy);
    }
}

/// Counting from `y` is one year's days more than counting from `y + 1`.
proof fn lemma_days_between_shift(y: int, yy: int)
    requires
        yy >= y + 1,
    ensures
        days_between_years(y, yy) == year_len(y) + days_between_years(y + 1, yy),
    decreases yy - y,
{
    if yy > y + 1 {
        lemma_days_between_shift(y, yy - 1);
    } else {
        assert(days_between_years(y, y) == 0);
        assert(days_between_years(y + 1, yy) == 0);
    }
}

proof fn lemma_month_day(rem: int, is_leap: bool, i: int)
    requires
        0 <= i <= 12,
        0 <= rem,
        rem + days_before_month(i + 1, is_leap) < (if is_leap { 366int } else { 365int }),
    ensures
        ({
            let (m, d) = month_day(rem, is_leap, i);
            i + 1 <= m <= 12 && 1 <= d <= month_len(m - 1, is_leap)
                && days_before_month(i + 1, is_leap) + rem == days_before_month(m, is_leap) + d - 1
        }),
    decreases 12 - i,
{
    if i >= 12 {
        // Twelve months cover the whole year: nothing is left over.
        lemma_days_in_year(is_leap);
        assert(false);
    } else if rem >= month_len(i, is_leap) {
        assert(days_before_month(i + 2, is_leap) == days_before_month(i + 1, is_leap) + month_len(i, is_leap));
        lemma_month_day(rem - month_len(i, is_leap), is_leap, i + 1);
    }
}

proof fn lemma_days_in_year(is_leap: bool)
    ensures
        days_before_month(13, is_leap) == (if is_leap { 366int } else { 365int }),
{
    reveal_with_fuel(days_before_month, 14);
}

/// The UTC parts of a Unix time are a valid date and clock time, and they
/// count back to the same number of seconds.
pub proof fn law_utc_parts_round_trip(secs: int)
    requires
        secs >= 0,
    ensures
        ({
            let (y, m, d, hh, mm, ss) = utc_parts(secs);
            &&& y >= 1970
            &&& 1 <= m <= 12
            &&& 1 <= d <= month_len(m - 1, leap(y))
            &&& 0 <= hh < 24 && 0 <= mm < 60 && 0 <= ss < 60
            &&& secs == (days_between_years(1970, y) + days_before_month(m, leap(y)) + d - 1) * 86400
                + hh * 3600 + mm * 60 + ss
        }),
{
    let days = secs / 86400;
    lemma_year_of(days, 1970);
    let (y, doy) = year_of(days, 1970);
    assert(days_before_month(1, leap(y)) == 0);
    lemma_month_day(doy, leap(y), 0);
    let (m, d) = month_day(doy, leap(y), 0);
    assert(secs == days * 86400 + ((secs / 3600) % 24) * 3600 + ((secs / 60) % 60) * 60 + secs % 60)
        by (nonlinear_arith)
        requires secs >= 0, days == secs / 86400;
}

/// `n` in decimal, left-padded with zeros to at least `w` digits (`{:0w}`).
pub open spec fn zero_padded(n: nat, w: nat) -> Seq<char> {
    let ds = digits(n);
    if ds.len() >= w { ds } else { repeat('0', (w - ds.len()) as nat) + ds }
}

fn push_zero_padded(out: &mut String, n: u64, w: usize)
    ensures
        final(out)@ == old(out)@ + zero_padded(n as nat, w as nat),
{
    let ds = u64_digits(n);
    let len = chars_of(ds.as_str()).len();
    if len < w {
        push_repeat(out, '0', w - len);
    }
    push_str(out, ds.as_str());
    proof {
        if len < w {
            assert(old(out)@ + repeat('0', (w - len) as nat) + ds@ =~= old(out)@ + zero_padded(n as nat, w as nat));
        }
    }
}

/// `YYYY-MM-DD` of a date.
pub open spec fn ymd_text(y: int, m: int, d: int) -> Seq<char> {
    zero_padded(y as nat, 4) + seq!['-'] + zero_padded(m as nat, 2) + seq!['-'] + zero_padded(d as nat, 2)
}

/// `YYYY-MM-DD` in UTC of Unix time `secs`.
pub open spec fn date_text(secs: int) -> Seq<char> {
    let (y, m, d, _hh, _mm, _ss) = utc_parts(secs);
    ymd_text(y, m, d)
}

/// `YYYY-MM-DD HH:MM` in UTC of Unix time `secs`.
pub open spec fn minute_text(secs: int) -> Seq<char> {
    let (y, m, d, hh, mm, _ss) = utc_parts(secs);
    ymd_text(y, m, d) + seq![' '] + zero_padded(hh as nat, 2) + seq![':'] + zero_padded(mm as nat, 2)
}

/// `YYYY-MM-DDTHH:MM:SSZ` in UTC of Unix time `secs`.
pub open spec fn iso_text(secs: int) -> Seq<char> {
    let (y, m, d, hh, mm, ss) = utc_parts(secs);
    ymd_text(y, m, d) + seq!['T'] + zero_padded(hh as nat, 2) + seq![':'] + zero_padded(mm as nat, 2)
        + seq![':'] + zero_padded(ss as nat, 2) + seq!['Z']
}

fn push_ymd(out: &mut String, y: u64, m: u64, d: u64)
    ensures
        final(out)@ == old(out)@ + ymd_text(y as int, m as int, d as int),
{
    push_zero_padded(out, y, 4);
    push_char(out, '-');
    push_zero_padded(out, m, 2);
    push_char(out, '-');
    push_zero_padded(out, d, 2);
    proof {
        assert(final(out)@ =~= old(out)@ + ymd_text(y as int, m as int, d as int));
    }
}

/// `YYYY-MM-DD` in UTC of Unix time `secs`.
pub fn format_date(secs: u64) -> (r: String)
    ensures
        r@ == date_text(secs as int),
{
    let (y, m, d, _hh, _mm, _ss) = secs_to_utc_parts(secs);
    let mut out = String::new();
    push_ymd(&mut out, y, m, d);
    proof { assert(out@ =~= date_text(secs as int)); }
    out
}

/// `YYYY-MM-DD HH:MM` in UTC of Unix time `secs`.
pub fn format_minute(secs: u64) -> (r: String)
    ensures
        r@ == minute_text(secs as int),
{
    let (y, m, d, hh, mm, _ss) = secs_to_utc_parts(secs);
    let mut out = String::new();
    push_ymd(&mut out, y, m, d);
    push_char(&mut out, ' ');
    push_zero_padded(&mut out, hh, 2);
    push_char(&mut out, ':');
    push_zero_padded(&mut out, mm, 2);
    proof { assert(out@ =~= minute_text(secs as int)); }
    out
}

/// `YYYY-MM-DDTHH:MM:SSZ` in UTC of Unix time `secs` (the cache's time stamps).
pub fn format_iso(secs: u64) -> (r: String)
    ensures
        r@ == iso_text(secs as int),
{
    let (y, m, d, hh, mm, ss) = secs_to_utc_parts(secs);
    let mut out = String::new();
    push_ymd(&mut out, y, m, d);
    push_char(&mut out, 'T');
    push_zero_padded(&mut out, hh, 2);
    push_char(&mut out, ':');
    push_zero_padded(&mut out, mm, 2);
    push_char(&mut out, ':');
    push_zero_padded(&mut out, ss, 2);
    push_char(&mut out, 'Z');
    proof { assert(out@ =~= iso_text(secs as int)); }
    out
}

} // verus!
