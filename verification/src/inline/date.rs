//! Dates and times.

use vstd::prelude::*;
use crate::candidate::{Candidate, Span};
use crate::inline::{emit, inline_cands, rendered_view, Rendered};
use crate::order::views;
use crate::spec::DateSpec;
use crate::spelling::poured;
use crate::tag::Tag;
use crate::text::{decimal, decimal_text, is_digit, push_char, same_text, to_chars};

verus! {

/// A moment in a local calendar.
#[derive(Clone, Copy, Debug, PartialEq, Eq, Structural)]
pub struct CivilTime {
    pub year: i64,
    /// From 1 to 12.
    pub month: u32,
    /// From 1 to 31.
    pub day: u32,
    pub hour: u32,
    pub minute: u32,
    pub second: u32,
    /// From 0, which is Sunday, to 6.
    pub weekday: u32,
}

// ---------------------------------------------------------------------------
// The calendar
// ---------------------------------------------------------------------------

/// Whether a year of the Gregorian calendar has a leap day.
pub open spec fn leap(y: int) -> bool {
    y % 4 == 0 && (y % 100 != 0 || y % 400 == 0)
}

/// How many days a month has.
pub open spec fn month_days(y: int, m: int) -> int {
    if m == 2 {
        if leap(y) {
            29
        } else {
            28
        }
    } else if m == 4 || m == 6 || m == 9 || m == 11 {
        30
    } else {
        31
    }
}

/// How many days of a year come before a month.
pub open spec fn days_before(y: int, m: int) -> int
    decreases m,
{
    if m <= 1 {
        0
    } else {
        days_before(y, m - 1) + month_days(y, m - 1)
    }
}

/// How many leap days there are from year 1 to the year before `y`; below zero
/// where `y` comes first.
pub open spec fn leap_days_before(y: int) -> int {
    (y - 1) / 4 - (y - 1) / 100 + (y - 1) / 400
}

/// The number of the first day of a year, counted from the first of January
/// 1970.
pub open spec fn year_start(y: int) -> int {
    365 * (y - 1970) + leap_days_before(y) - leap_days_before(1970)
}

/// Whether a date exists.
pub open spec fn date_exists(y: int, m: int, d: int) -> bool {
    1 <= m <= 12 && 1 <= d <= month_days(y, m)
}

/// The number of a day, counted from the first of January 1970.
pub open spec fn day_number(y: int, m: int, d: int) -> int {
    year_start(y) + days_before(y, m) + d - 1
}

proof fn days_before_months(y: int)
    ensures
        ({
            let l: int = if leap(y) {
                1
            } else {
                0
            };
            &&& days_before(y, 1) == 0
            &&& days_before(y, 2) == 31
            &&& days_before(y, 3) == 59 + l
            &&& days_before(y, 4) == 90 + l
            &&& days_before(y, 5) == 120 + l
            &&& days_before(y, 6) == 151 + l
            &&& days_before(y, 7) == 181 + l
            &&& days_before(y, 8) == 212 + l
            &&& days_before(y, 9) == 243 + l
            &&& days_before(y, 10) == 273 + l
            &&& days_before(y, 11) == 304 + l
            &&& days_before(y, 12) == 334 + l
        }),
{
    reveal_with_fuel(days_before, 13);
}

proof fn fourth_years(y: int)
    ensures
        y / 4 - (y - 1) / 4 == (if y % 4 == 0 {
            1int
        } else {
            0
        }),
{
}

proof fn hundredth_years(y: int)
    ensures
        y / 100 - (y - 1) / 100 == (if y % 100 == 0 {
            1int
        } else {
            0
        }),
        y % 100 == 0 ==> y % 4 == 0,
{
}

proof fn four_hundredth_years(y: int)
    ensures
        y / 400 - (y - 1) / 400 == (if y % 400 == 0 {
            1int
        } else {
            0
        }),
        y % 400 == 0 ==> y % 100 == 0,
{
}

proof fn leap_days_join(y: int)
    ensures
        y / 4 - y / 100 + y / 400 == leap_days_before(y) + (if leap(y) {
            1int
        } else {
            0
        }),
{
    fourth_years(y);
    hundredth_years(y);
    four_hundredth_years(y);
}

/// Each year starts where the year before has ended.
proof fn years_join(y: int)
    ensures
        year_start(y + 1) == year_start(y) + (if leap(y) {
            366int
        } else {
            365
        }),
{
    leap_days_join(y);
    assert(leap_days_before(y + 1) == y / 4 - y / 100 + y / 400);
}

/// The first of March, as counted from the first of March of year 0.
spec fn march_start(y: int) -> int {
    365 * y + y / 4 - y / 100 + y / 400
}

proof fn march_is_in_its_year(y: int)
    ensures
        year_start(y) + days_before(y, 3) == march_start(y) - 719468,
        year_start(y + 1) == march_start(y) - 719468 + 306,
{
    days_before_months(y);
    years_join(y);
    leap_days_join(y);
    assert(leap_days_before(1970) == 477);
}

proof fn parts_of_a_march_year(e: int, c: int, q: int, s: int)
    requires
        0 <= c <= 3,
        0 <= q <= 24,
        0 <= s <= 3,
    ensures
        march_start(e * 400 + c * 100 + q * 4 + s) == e * 146_097 + c * 36_524 + q * 1461 + s * 365,
{
    let y = e * 400 + c * 100 + q * 4 + s;
    assert(y / 4 == e * 100 + c * 25 + q);
    assert(y / 100 == e * 4 + c);
    assert(y / 400 == e);
}

proof fn last_day_is_a_leap_day(e: int, c: int, q: int)
    requires
        0 <= c <= 3,
        0 <= q <= 24,
        q == 24 ==> c == 3,
    ensures
        leap(e * 400 + c * 100 + q * 4 + 3 + 1),
{
    let y = e * 400 + c * 100 + q * 4 + 4;
    if q == 24 {
        assert(y == (e + 1) * 400);
        assert(y % 400 == 0);
        assert(y % 4 == 0);
    } else {
        assert(y % 4 == 0);
        assert(y % 100 == q * 4 + 4);
    }
}

/// The four hundred years that hold a day, and the place of the day in them.
fn era_of(z: i64) -> (r: (i64, i64))
    ensures
        r.0 * 146_097 + r.1 == z,
        0 <= r.1 < 146_097,
        -0x0040_0000_0000_0000 <= r.0 <= 0x0040_0000_0000_0000,
{
    let era: i64 = z / 146_097;
    let doe: i64 = z % 146_097;
    if doe < 0 {
        (era - 1, doe + 146_097)
    } else {
        (era, doe)
    }
}

/// The century that holds a day of four hundred years, the four years of it,
/// the year of those, and the place of the day in the year.
fn within_era(doe: i64) -> (r: (i64, i64, i64, i64))
    requires
        0 <= doe < 146_097,
    ensures
        r.0 * 36_524 + r.1 * 1461 + r.2 * 365 + r.3 == doe,
        0 <= r.0 <= 3,
        0 <= r.1 <= 24,
        0 <= r.2 <= 3,
        0 <= r.3 <= 365,
        r.3 == 365 ==> r.2 == 3 && (r.1 == 24 ==> r.0 == 3),
{
    let mut century: i64 = doe / 36_524;
    if century > 3 {
        century = 3;
    }
    let doc: i64 = doe - century * 36_524;
    let quad: i64 = doc / 1461;
    let doq: i64 = doc - quad * 1461;
    let mut single: i64 = doq / 365;
    if single > 3 {
        single = 3;
    }
    let doy: i64 = doq - single * 365;
    (century, quad, single, doy)
}

/// The year, counted from March, that holds the day `z` counted from the first
/// of March of year 0, and the place of the day in it.
fn march_year(z: i64) -> (r: (i64, i64))
    ensures
        march_start(r.0 as int) + r.1 == z,
        0 <= r.1 <= 365,
        r.1 == 365 ==> leap(r.0 + 1),
        -0x4000_0000_0000_0000 <= r.0 <= 0x4000_0000_0000_0000,
{
    let (era, doe) = era_of(z);
    let (century, quad, single, doy) = within_era(doe);
    let y: i64 = era * 400 + century * 100 + quad * 4 + single;
    proof {
        parts_of_a_march_year(era as int, century as int, quad as int, single as int);
        if doy == 365 {
            last_day_is_a_leap_day(era as int, century as int, quad as int);
        }
    }
    (y, doy)
}

/// How many days of a year that is counted from March come before a month.
spec fn march_before(mp: int) -> int {
    if mp == 0 {
        0
    } else if mp == 1 {
        31
    } else if mp == 2 {
        61
    } else if mp == 3 {
        92
    } else if mp == 4 {
        122
    } else if mp == 5 {
        153
    } else if mp == 6 {
        184
    } else if mp == 7 {
        214
    } else if mp == 8 {
        245
    } else if mp == 9 {
        275
    } else if mp == 10 {
        306
    } else if mp == 11 {
        337
    } else {
        366
    }
}

fn march_month(doy: i64) -> (r: (i64, i64))
    requires
        0 <= doy <= 365,
    ensures
        0 <= r.0 <= 11,
        march_before(r.0 as int) <= doy < march_before(r.0 + 1),
        r.1 == doy - march_before(r.0 as int) + 1,
{
    let mp: i64 = (5 * doy + 2) / 153;
    let d: i64 = doy - (153 * mp + 2) / 5 + 1;
    assert(mp == 0 || mp == 1 || mp == 2 || mp == 3 || mp == 4 || mp == 5 || mp == 6 || mp == 7 || mp
        == 8 || mp == 9 || mp == 10 || mp == 11);
    (mp, d)
}

/// The date of a day, counted from the first of January 1970.
pub fn civil_from_days(days: i64) -> (r: (i64, u32, u32))
    requires
        days <= i64::MAX - 719_468,
    ensures
        date_exists(r.0 as int, r.1 as int, r.2 as int),
        day_number(r.0 as int, r.1 as int, r.2 as int) == days,
{
    let (y, doy) = march_year(days + 719_468);
    let (mp, d) = march_month(doy);
    proof {
        march_is_in_its_year(y as int);
        days_before_months(y as int);
        days_before_months(y + 1);
        assert(mp == 0 || mp == 1 || mp == 2 || mp == 3 || mp == 4 || mp == 5 || mp == 6 || mp == 7
            || mp == 8 || mp == 9 || mp == 10 || mp == 11);
    }
    if mp < 10 {
        (y, (mp + 3) as u32, d as u32)
    } else {
        (y + 1, (mp - 9) as u32, d as u32)
    }
}

/// What a moment is in a local calendar.
pub open spec fn civil_of(t: CivilTime, local: int) -> bool {
    &&& date_exists(t.year as int, t.month as int, t.day as int)
    &&& day_number(t.year as int, t.month as int, t.day as int) == local / 86_400
    &&& t.hour == (local % 86_400) / 3600
    &&& t.minute == ((local % 86_400) % 3600) / 60
    &&& t.second == (local % 86_400) % 60
    &&& t.weekday == (local / 86_400 + 4) % 7
}

/// The day of a local moment and the second in it.
fn day_and_second(local: i64) -> (r: (i64, i64))
    ensures
        r.0 == local as int / 86_400,
        r.1 == local as int % 86_400,
{
    let days: i64 = local / 86_400;
    let rem: i64 = local % 86_400;
    if rem < 0 {
        (days - 1, rem + 86_400)
    } else {
        (days, rem)
    }
}

/// The day of the week of a day, counted from the first of January 1970, which
/// was a Thursday.
fn weekday_of(days: i64) -> (r: u32)
    requires
        days <= i64::MAX - 4,
    ensures
        r == (days + 4) % 7,
        r < 7,
{
    let w: i64 = (days + 4) % 7;
    if w < 0 {
        (w + 7) as u32
    } else {
        w as u32
    }
}

/// The local calendar moment of a number of seconds, with the offset of the
/// place from universal time.
pub fn civil_from_unix(secs: i64, offset_secs: i64) -> (r: CivilTime)
    requires
        i64::MIN <= secs + offset_secs <= i64::MAX,
    ensures
        civil_of(r, secs + offset_secs),
{
    let (days, rem) = day_and_second(secs + offset_secs);
    let (year, month, day) = civil_from_days(days);
    CivilTime {
        year,
        month,
        day,
        hour: (rem / 3600) as u32,
        minute: ((rem % 3600) / 60) as u32,
        second: (rem % 60) as u32,
        weekday: weekday_of(days),
    }
}

// ---------------------------------------------------------------------------
// Renderings
// ---------------------------------------------------------------------------

/// A digit in Chinese.
pub open spec fn digit_zh(d: int) -> Seq<char> {
    if d == 1 {
        "一"@
    } else if d == 2 {
        "二"@
    } else if d == 3 {
        "三"@
    } else if d == 4 {
        "四"@
    } else if d == 5 {
        "五"@
    } else if d == 6 {
        "六"@
    } else if d == 7 {
        "七"@
    } else if d == 8 {
        "八"@
    } else if d == 9 {
        "九"@
    } else {
        "〇"@
    }
}

fn digit_zh_text(d: u32) -> (r: &'static str)
    ensures
        r@ == digit_zh(d as int),
{
    match d {
        1 => "一",
        2 => "二",
        3 => "三",
        4 => "四",
        5 => "五",
        6 => "六",
        7 => "七",
        8 => "八",
        9 => "九",
        _ => "〇",
    }
}

/// A whole number as it is written.
pub open spec fn signed(n: int) -> Seq<char> {
    if n < 0 {
        seq!['-'] + decimal((-n) as nat)
    } else {
        decimal(n as nat)
    }
}

/// `n` noughts, none where `n` is below one.
pub open spec fn noughts(n: int) -> Seq<char> {
    Seq::new(
        if n > 0 {
            n as nat
        } else {
            0
        },
        |i: int| '0',
    )
}

/// A whole number, filled up with noughts to a width.
pub open spec fn filled_up(n: int, width: int) -> Seq<char> {
    if n < 0 {
        let ds = decimal((-n) as nat);
        seq!['-'] + noughts(width - 1 - ds.len()) + ds
    } else {
        let ds = decimal(n as nat);
        noughts(width - ds.len()) + ds
    }
}

fn magnitude(n: i64) -> (r: u64)
    ensures
        r == (if n < 0 {
            -n as int
        } else {
            n as int
        }),
{
    if n >= 0 {
        n as u64
    } else if n == i64::MIN {
        0x8000_0000_0000_0000
    } else {
        (-n) as u64
    }
}

fn filled_up_text(n: i64, width: usize) -> (r: String)
    ensures
        r@ == filled_up(n as int, width as int),
{
    let digits = decimal_text(magnitude(n));
    let len: usize = to_chars(digits.as_str()).len();
    let mut out = String::new();
    let mut used: usize = len;
    assert(out@ =~= noughts(0));
    if n < 0 {
        push_char(&mut out, '-');
        assert(out@ =~= seq!['-'] + noughts(0));
        if used < width {
            used += 1;
        }
    }
    let ghost sign: Seq<char> = if n < 0 {
        seq!['-']
    } else {
        seq![]
    };
    let ghost from = used as int;
    assert(out@ =~= sign + noughts(0));
    while used < width
        invariant
            from <= used,
            from <= width ==> used <= width,
            from >= width ==> used == from,
            out@ == sign + noughts(used - from),
        decreases width - used,
    {
        let ghost was = out@;
        push_char(&mut out, '0');
        used += 1;
        assert(out@ =~= sign + noughts(used - from));
    }
    let ghost filled = out@;
    out = out.concat(digits.as_str());
    assert(out@ =~= filled_up(n as int, width as int));
    out
}

/// The characters of a text as Chinese digits; what is no digit counts as
/// nought.
pub open spec fn digits_zh(s: Seq<char>) -> Seq<char>
    decreases s.len(),
{
    if s.len() == 0 {
        seq![]
    } else {
        let c = s.last();
        digits_zh(s.drop_last()) + digit_zh(
            if is_digit(c) {
                c as int - 48
            } else {
                0
            },
        )
    }
}

/// A year, digit by digit: 2026 is 二〇二六.
pub fn year_zh(year: i64) -> (r: String)
    ensures
        r@ == digits_zh(signed(year as int)),
{
    let mut plain = String::new();
    if year < 0 {
        push_char(&mut plain, '-');
    }
    let plain = plain.concat(decimal_text(magnitude(year)).as_str());
    assert(plain@ =~= signed(year as int));
    let cs = to_chars(plain.as_str());
    let mut out = String::new();
    let mut i: usize = 0;
    assert(cs@.take(0) =~= seq![]);
    assert(out@ =~= seq![]);
    while i < cs.len()
        invariant
            i <= cs@.len(),
            out@ == digits_zh(cs@.take(i as int)),
        decreases cs.len() - i,
    {
        let c = cs[i];
        proof {
            let t = cs@.take(i + 1);
            assert(t.drop_last() =~= cs@.take(i as int));
            assert(t.last() == c);
        }
        let d: u32 = if '0' <= c && c <= '9' {
            c as u32 - 48
        } else {
            0
        };
        out = out.concat(digit_zh_text(d));
        i += 1;
    }
    assert(cs@.take(i as int) =~= cs@);
    out
}

/// A month in Chinese; empty where there is no such month.
pub open spec fn month_zh(m: int) -> Seq<char> {
    if m == 1 {
        "一月"@
    } else if m == 2 {
        "二月"@
    } else if m == 3 {
        "三月"@
    } else if m == 4 {
        "四月"@
    } else if m == 5 {
        "五月"@
    } else if m == 6 {
        "六月"@
    } else if m == 7 {
        "七月"@
    } else if m == 8 {
        "八月"@
    } else if m == 9 {
        "九月"@
    } else if m == 10 {
        "十月"@
    } else if m == 11 {
        "十一月"@
    } else if m == 12 {
        "十二月"@
    } else {
        ""@
    }
}

fn month_zh_text(m: u32) -> (r: &'static str)
    ensures
        r@ == month_zh(m as int),
{
    match m {
        1 => "一月",
        2 => "二月",
        3 => "三月",
        4 => "四月",
        5 => "五月",
        6 => "六月",
        7 => "七月",
        8 => "八月",
        9 => "九月",
        10 => "十月",
        11 => "十一月",
        12 => "十二月",
        _ => "",
    }
}

/// A day of the month in Chinese; other numbers stay as they are.
pub open spec fn day_name(d: int) -> Seq<char> {
    if 1 <= d <= 9 {
        digit_zh(d)
    } else if d == 10 {
        "十"@
    } else if 11 <= d <= 19 {
        "十"@ + digit_zh(d - 10)
    } else if d == 20 {
        "二十"@
    } else if 21 <= d <= 29 {
        "二十"@ + digit_zh(d - 20)
    } else if d == 30 {
        "三十"@
    } else if d == 31 {
        "三十一"@
    } else {
        decimal(d as nat)
    }
}

/// A day of the month in Chinese.
pub fn day_zh(day: u32) -> (r: String)
    ensures
        r@ == day_name(day as int),
{
    if 1 <= day && day <= 9 {
        digit_zh_text(day).to_owned()
    } else if day == 10 {
        "十".to_owned()
    } else if 11 <= day && day <= 19 {
        "十".to_owned().concat(digit_zh_text(day - 10))
    } else if day == 20 {
        "二十".to_owned()
    } else if 21 <= day && day <= 29 {
        "二十".to_owned().concat(digit_zh_text(day - 20))
    } else if day == 30 {
        "三十".to_owned()
    } else if day == 31 {
        "三十一".to_owned()
    } else {
        decimal_text(day as u64)
    }
}

/// A month and a day in Chinese.
pub fn month_day_zh(month: u32, day: u32) -> (r: String)
    ensures
        r@ == month_zh(month as int) + day_name(day as int) + "日"@,
{
    month_zh_text(month).to_owned().concat(day_zh(day).as_str()).concat("日")
}

/// A month in English; empty where there is no such month.
pub open spec fn month_en(m: int) -> Seq<char> {
    if m == 1 {
        "January"@
    } else if m == 2 {
        "February"@
    } else if m == 3 {
        "March"@
    } else if m == 4 {
        "April"@
    } else if m == 5 {
        "May"@
    } else if m == 6 {
        "June"@
    } else if m == 7 {
        "July"@
    } else if m == 8 {
        "August"@
    } else if m == 9 {
        "September"@
    } else if m == 10 {
        "October"@
    } else if m == 11 {
        "November"@
    } else if m == 12 {
        "December"@
    } else {
        ""@
    }
}

fn month_en_text(m: u32) -> (r: &'static str)
    ensures
        r@ == month_en(m as int),
{
    match m {
        1 => "January",
        2 => "February",
        3 => "March",
        4 => "April",
        5 => "May",
        6 => "June",
        7 => "July",
        8 => "August",
        9 => "September",
        10 => "October",
        11 => "November",
        12 => "December",
        _ => "",
    }
}

/// A day of the week in Chinese.
pub open spec fn weekday_zh(d: int) -> Seq<char> {
    if d == 1 {
        "星期一"@
    } else if d == 2 {
        "星期二"@
    } else if d == 3 {
        "星期三"@
    } else if d == 4 {
        "星期四"@
    } else if d == 5 {
        "星期五"@
    } else if d == 6 {
        "星期六"@
    } else {
        "星期日"@
    }
}

fn weekday_zh_text(d: u32) -> (r: &'static str)
    ensures
        r@ == weekday_zh(d as int),
{
    match d {
        1 => "星期一",
        2 => "星期二",
        3 => "星期三",
        4 => "星期四",
        5 => "星期五",
        6 => "星期六",
        _ => "星期日",
    }
}

// ---------------------------------------------------------------------------
// The translator
// ---------------------------------------------------------------------------

/// Offers dates and times for trigger words. What time it is, it is told.
#[derive(Debug)]
pub struct DateTranslator {
    pub spec: DateSpec,
    pub tags: Vec<Tag>,
}

/// A date with hyphens.
pub open spec fn date_text(t: CivilTime) -> Seq<char> {
    filled_up(t.year as int, 4) + "-"@ + filled_up(t.month as int, 2) + "-"@ + filled_up(
        t.day as int,
        2,
    )
}

/// A date and time of day with the offset from universal time.
pub open spec fn iso_text(t: CivilTime, offset: int) -> Seq<char> {
    let abs = if offset < 0 {
        -offset
    } else {
        offset
    };
    date_text(t) + "T"@ + filled_up(t.hour as int, 2) + ":"@ + filled_up(t.minute as int, 2)
        + ":"@ + filled_up(t.second as int, 2) + (if offset < 0 {
        "-"@
    } else {
        "+"@
    }) + filled_up(abs / 3600, 2) + ":"@ + filled_up((abs % 3600) / 60, 2)
}

/// A number of seconds where it fits, else none have passed.
pub open spec fn clock_secs(now: u64) -> int {
    if now <= i64::MAX {
        now as int
    } else {
        0
    }
}

/// Whether a clock reading can be put on the calendar.
pub open spec fn clock_fits(now: u64, offset: i64) -> bool {
    i64::MIN < offset && clock_secs(now) + offset <= i64::MAX
}

/// What a trigger word stands for at a moment.
pub open spec fn date_for(spec: DateSpec, input: Seq<char>, now: u64, offset: int, t: CivilTime) -> Seq<
    (Seq<char>, Option<Seq<char>>),
> {
    if input == spec.date@ {
        seq![(date_text(t), None)]
    } else if input == spec.time@ {
        seq![(filled_up(t.hour as int, 2) + ":"@ + filled_up(t.minute as int, 2), None)]
    } else if input == spec.week@ {
        seq![(weekday_zh(t.weekday as int), None)]
    } else if input == spec.datetime@ {
        seq![(iso_text(t, offset), None)]
    } else if input == spec.timestamp@ {
        seq![(decimal(now as nat), None)]
    } else if input == spec.date_zh@ {
        seq![
            (
                digits_zh(signed(t.year as int)) + "年"@ + month_zh(t.month as int) + day_name(
                    t.day as int,
                ) + "日"@,
                None,
            ),
        ]
    } else if input == spec.date_en@ {
        seq![
            (
                month_en(t.month as int) + " "@ + decimal(t.day as nat) + ", "@ + signed(
                    t.year as int,
                ),
                None,
            ),
        ]
    } else {
        seq![]
    }
}

fn date_string(t: &CivilTime) -> (r: String)
    ensures
        r@ == date_text(*t),
{
    filled_up_text(t.year, 4).concat("-").concat(
        filled_up_text(t.month as i64, 2).as_str(),
    ).concat("-").concat(filled_up_text(t.day as i64, 2).as_str())
}

fn iso8601(t: &CivilTime, offset: i64) -> (r: String)
    requires
        offset > i64::MIN,
    ensures
        r@ == iso_text(*t, offset as int),
{
    let abs: i64 = if offset < 0 {
        -offset
    } else {
        offset
    };
    let sign = if offset < 0 {
        "-"
    } else {
        "+"
    };
    date_string(t).concat("T").concat(filled_up_text(t.hour as i64, 2).as_str()).concat(
        ":",
    ).concat(filled_up_text(t.minute as i64, 2).as_str()).concat(":").concat(
        filled_up_text(t.second as i64, 2).as_str(),
    ).concat(sign).concat(filled_up_text(abs / 3600, 2).as_str()).concat(":").concat(
        filled_up_text((abs % 3600) / 60, 2).as_str(),
    )
}

fn signed_text(n: i64) -> (r: String)
    ensures
        r@ == signed(n as int),
{
    let mut s = String::new();
    if n < 0 {
        push_char(&mut s, '-');
    }
    let r = s.concat(decimal_text(magnitude(n)).as_str());
    assert(r@ =~= signed(n as int));
    r
}

impl DateTranslator {
    pub fn new(spec: DateSpec, tags: Vec<Tag>) -> (r: Self)
        ensures
            r.spec == spec,
            r.tags == tags,
    {
        DateTranslator { spec, tags }
    }

    /// What a trigger word stands for when the clock shows `now` seconds at a
    /// place `offset` seconds from universal time.
    pub fn render(&self, input: &str, now: u64, offset: i64) -> (r: Rendered)
        requires
            clock_fits(now, offset),
        ensures
            exists|t: CivilTime| #[trigger]
                civil_of(t, clock_secs(now) + offset) && rendered_view(r@) == date_for(
                    self.spec,
                    input@,
                    now,
                    offset as int,
                    t,
                ),
            r@.len() <= 1,
    {
        let secs: i64 = if now <= i64::MAX as u64 {
            now as i64
        } else {
            0
        };
        let t = civil_from_unix(secs, offset);
        let mut out: Rendered = Vec::new();
        if same_text(input, self.spec.date.as_str()) {
            out.push((date_string(&t), None));
        } else if same_text(input, self.spec.time.as_str()) {
            out.push(
                (
                    filled_up_text(t.hour as i64, 2).concat(":").concat(
                        filled_up_text(t.minute as i64, 2).as_str(),
                    ),
                    None,
                ),
            );
        } else if same_text(input, self.spec.week.as_str()) {
            out.push((weekday_zh_text(t.weekday).to_owned(), None));
        } else if same_text(input, self.spec.datetime.as_str()) {
            out.push((iso8601(&t, offset), None));
        } else if same_text(input, self.spec.timestamp.as_str()) {
            out.push((decimal_text(now), None));
        } else if same_text(input, self.spec.date_zh.as_str()) {
            let md = month_day_zh(t.month, t.day);
            let text = year_zh(t.year).concat("年").concat(md.as_str());
            assert(text@ =~= digits_zh(signed(t.year as int)) + "年"@ + month_zh(t.month as int)
                + day_name(t.day as int) + "日"@);
            out.push((text, None));
        } else if same_text(input, self.spec.date_en.as_str()) {
            out.push(
                (
                    month_en_text(t.month).to_owned().concat(" ").concat(
                        decimal_text(t.day as u64).as_str(),
                    ).concat(", ").concat(signed_text(t.year).as_str()),
                    None,
                ),
            );
        }
        assert(rendered_view(out@) =~= date_for(self.spec, input@, now, offset as int, t));
        out
    }

    /// Offers what [`DateTranslator::render`] gives to a buffer of `cap` places.
    pub fn translate(
        &self,
        segment: &str,
        now: u64,
        offset: i64,
        span: Span,
        out: &mut Vec<Candidate>,
        cap: usize,
    )
        requires
            clock_fits(now, offset),
        ensures
            exists|t: CivilTime| #[trigger]
                civil_of(t, clock_secs(now) + offset) && views(final(out)@) == poured(
                    views(old(out)@),
                    inline_cands(
                        date_for(self.spec, segment@, now, offset as int, t),
                        span,
                    ),
                    cap as int,
                ),
    {
        let rendered = self.render(segment, now, offset);
        emit(rendered, span, out, cap);
    }
}

// ---------------------------------------------------------------------------
// Laws
// ---------------------------------------------------------------------------

proof fn day_within_year(y: int, m: int, d: int)
    requires
        date_exists(y, m, d),
    ensures
        year_start(y) <= day_number(y, m, d) < year_start(y + 1),
{
    days_before_months(y);
    years_join(y);
    assert(m == 1 || m == 2 || m == 3 || m == 4 || m == 5 || m == 6 || m == 7 || m == 8 || m == 9
        || m == 10 || m == 11 || m == 12);
}

proof fn later_years_start_later(y: int, z: int)
    requires
        y <= z,
    ensures
        year_start(y) <= year_start(z),
    decreases z - y,
{
    if y < z {
        years_join(z - 1);
        later_years_start_later(y, z - 1);
    }
}

/// Two dates with one number are one date: a day has exactly one date.
pub proof fn a_day_has_one_date(y: int, m: int, d: int, y2: int, m2: int, d2: int)
    requires
        date_exists(y, m, d),
        date_exists(y2, m2, d2),
        day_number(y, m, d) == day_number(y2, m2, d2),
    ensures
        y == y2 && m == m2 && d == d2,
{
    day_within_year(y, m, d);
    day_within_year(y2, m2, d2);
    if y < y2 {
        later_years_start_later(y + 1, y2);
    } else if y2 < y {
        later_years_start_later(y2 + 1, y);
    }
    days_before_months(y);
    assert(m == 1 || m == 2 || m == 3 || m == 4 || m == 5 || m == 6 || m == 7 || m == 8 || m == 9
        || m == 10 || m == 11 || m == 12);
    assert(m2 == 1 || m2 == 2 || m2 == 3 || m2 == 4 || m2 == 5 || m2 == 6 || m2 == 7 || m2 == 8
        || m2 == 9 || m2 == 10 || m2 == 11 || m2 == 12);
}

/// A moment has one place in the calendar.
pub proof fn a_moment_has_one_reading(a: CivilTime, b: CivilTime, local: int)
    requires
        civil_of(a, local),
        civil_of(b, local),
    ensures
        a == b,
{
    a_day_has_one_date(
        a.year as int,
        a.month as int,
        a.day as int,
        b.year as int,
        b.month as int,
        b.day as int,
    );
}

} // verus!
