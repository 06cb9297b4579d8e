//! What dates and times that are written out tell, and how moments follow each
//! other in the calendar.

use vstd::prelude::*;
use crate::inline::date::{
    civil_of, date_exists, date_for, date_text, day_name, day_number, days_before, digit_zh,
    digits_zh, filled_up, iso_text, leap_days_before, month_days, month_en, month_zh, noughts,
    year_start, CivilTime,
};
use crate::inline::number_worth::{counts, told, written};
use crate::spec::DateSpec;
use crate::text::{decimal, is_digit};

verus! {

// ---------------------------------------------------------------------------
// The calendar
// ---------------------------------------------------------------------------

/// How long a month is: thirty days or thirty-one in turn, with two long ones
/// together in summer and in winter, and a short second month that every fourth
/// year makes longer, but for the centuries that four hundred does not divide.
pub open spec fn lasts(y: int, m: int) -> int {
    if m != 2 {
        30 + (m + m / 8) % 2
    } else if y % 400 == 0 || (y % 100 != 0 && y % 4 == 0) {
        29
    } else {
        28
    }
}

proof fn months_last(y: int, m: int)
    requires
        1 <= m <= 12,
    ensures
        month_days(y, m) == lasts(y, m),
{
    assert(y % 400 == 0 ==> y % 4 == 0);
    assert(m == 1 || m == 2 || m == 3 || m == 4 || m == 5 || m == 6 || m == 7 || m == 8 || m == 9
        || m == 10 || m == 11 || m == 12);
}

proof fn years_follow(y: int)
    ensures
        year_start(y + 1) == year_start(y) + 337 + lasts(y, 2),
{
    assert(y / 4 - (y - 1) / 4 == (if y % 4 == 0 {
        1int
    } else {
        0
    }));
    assert(y / 100 - (y - 1) / 100 == (if y % 100 == 0 {
        1int
    } else {
        0
    }));
    assert(y / 400 - (y - 1) / 400 == (if y % 400 == 0 {
        1int
    } else {
        0
    }));
    assert(y % 400 == 0 ==> y % 100 == 0);
    assert(y % 100 == 0 ==> y % 4 == 0);
}

proof fn days_before_the_months(y: int)
    ensures
        ({
            let l = lasts(y, 2) - 28;
            &&& days_before(y, 1) == 0
            &&& days_before(y, 2) == 31
            &&& days_before(y, 3) == 59 + l
            &&& days_before(y, 4) == 90 + l
            &&& days_before(y, 5) == 120 + l
            &&& days_before(y, 6) == 151 + l
            &&& days_before(y, 7) == 181 + l
            &&& days_before(y, 8) == 212 + l
            &&& days_before(y, 9) == 243 + l
            &&& days_before(y, 10) == 273 + l
            &&& days_before(y, 11) == 304 + l
            &&& days_before(y, 12) == 334 + l
        }),
{
    reveal_with_fuel(days_before, 13);
    months_last(y, 2);
}

/// The day after a date is the next of its month, or else the first of the next
/// month, or else the first of the next year.
pub proof fn days_follow_each_other(y: int, m: int, d: int)
    requires
        1 <= m <= 12,
        1 <= d <= lasts(y, m),
    ensures
        date_exists(y, m, d),
        ({
            let (y2, m2, d2) = if d < lasts(y, m) {
                (y, m, d + 1)
            } else if m < 12 {
                (y, m + 1, 1)
            } else {
                (y + 1, 1, 1)
            };
            date_exists(y2, m2, d2) && day_number(y2, m2, d2) == day_number(y, m, d) + 1
        }),
{
    months_last(y, m);
    days_before_the_months(y);
    days_before_the_months(y + 1);
    years_follow(y);
    if m < 12 {
        months_last(y, m + 1);
    } else {
        months_last(y + 1, 1);
    }
    assert(m == 1 || m == 2 || m == 3 || m == 4 || m == 5 || m == 6 || m == 7 || m == 8 || m == 9
        || m == 10 || m == 11 || m == 12);
}

/// Days are counted from the first of January 1970.
pub proof fn days_are_counted_from_1970(y: int, m: int, d: int)
    requires
        date_exists(y, m, d),
    ensures
        y >= 1970 <==> day_number(y, m, d) >= 0,
        y == 1970 && m == 1 ==> day_number(y, m, d) == d - 1,
{
    days_before_the_months(y);
    months_last(y, m);
    assert(m == 1 || m == 2 || m == 3 || m == 4 || m == 5 || m == 6 || m == 7 || m == 8 || m == 9
        || m == 10 || m == 11 || m == 12);
    if y >= 1970 {
        years_ascend(1970, y);
    } else {
        years_ascend(y + 1, 1970);
        years_follow(y);
    }
}

proof fn years_ascend(y: int, z: int)
    requires
        y <= z,
    ensures
        year_start(y) <= year_start(z),
    decreases z - y,
{
    if y < z {
        years_follow(z - 1);
        years_ascend(y, z - 1);
    }
}

proof fn clocks_tick(r: int)
    requires
        0 <= r < 86_399,
    ensures
        ({
            let (h, m, s) = (r / 3600, (r % 3600) / 60, r % 60);
            let n = r + 1;
            &&& 0 <= h < 24 && 0 <= m < 60 && 0 <= s < 60
            &&& n % 60 == (s + 1) % 60
            &&& (n % 3600) / 60 == (if s == 59 {
                (m + 1) % 60
            } else {
                m
            })
            &&& n / 3600 == (if s == 59 && m == 59 {
                (h + 1) % 24
            } else {
                h
            })
            &&& !(s == 59 && m == 59 && h == 23)
        }),
{
    let h = r / 3600;
    let k = r % 3600;
    assert(r == 3600 * h + k);
    let m = k / 60;
    let s = k % 60;
    assert(k == 60 * m + s);
    assert(r % 60 == s) by {
        assert(r == 60 * (60 * h + m) + s);
    }
    if s < 59 {
        assert(r + 1 == 60 * (60 * h + m) + (s + 1));
        assert((r + 1) / 3600 == h && (r + 1) % 3600 == k + 1);
        assert((k + 1) / 60 == m);
    } else if m < 59 {
        assert(r + 1 == 60 * (60 * h + m + 1));
        assert((r + 1) / 3600 == h && (r + 1) % 3600 == k + 1);
        assert((k + 1) / 60 == m + 1);
    } else {
        assert(r + 1 == 3600 * (h + 1));
        assert((r + 1) / 3600 == h + 1 && (r + 1) % 3600 == 0);
        assert((r + 1) % 60 == 0);
    }
}

/// What the clock shows one second later: seconds carry into minutes, minutes
/// into hours, hours into days, and with the day the weekday goes on.
pub proof fn seconds_follow_each_other(a: CivilTime, b: CivilTime, local: int)
    requires
        civil_of(a, local),
        civil_of(b, local + 1),
    ensures
        b.second == (a.second + 1) % 60,
        b.minute == (if a.second == 59 {
            (a.minute + 1) % 60
        } else {
            a.minute as int
        }),
        b.hour == (if a.second == 59 && a.minute == 59 {
            (a.hour + 1) % 24
        } else {
            a.hour as int
        }),
        a.second == 59 && a.minute == 59 && a.hour == 23 ==> {
            &&& b.weekday == (a.weekday + 1) % 7
            &&& day_number(b.year as int, b.month as int, b.day as int) == day_number(
                a.year as int,
                a.month as int,
                a.day as int,
            ) + 1
        },
        !(a.second == 59 && a.minute == 59 && a.hour == 23) ==> {
            &&& b.weekday == a.weekday
            &&& day_number(b.year as int, b.month as int, b.day as int) == day_number(
                a.year as int,
                a.month as int,
                a.day as int,
            )
        },
        a.second < 60 && a.minute < 60 && a.hour < 24 && a.weekday < 7,
{
    let r = local % 86_400;
    let q = local / 86_400;
    assert(local == q * 86_400 + r);
    if r == 86_399 {
        assert((local + 1) / 86_400 == q + 1);
        assert((local + 1) % 86_400 == 0);
    } else {
        assert((local + 1) / 86_400 == q);
        assert((local + 1) % 86_400 == r + 1);
        clocks_tick(r);
        assert(r % 60 == (r % 3600) % 60);
    }
}

/// The time of day and the number of the day make up the moment.
pub proof fn moments_are_days_and_times(t: CivilTime, local: int)
    requires
        civil_of(t, local),
    ensures
        day_number(t.year as int, t.month as int, t.day as int) * 86_400 + t.hour * 3600 + t.minute
            * 60 + t.second == local,
{
    let r = local % 86_400;
    assert(local == (local / 86_400) * 86_400 + r);
    assert(r == (r / 3600) * 3600 + r % 3600);
    assert(r % 3600 == ((r % 3600) / 60) * 60 + (r % 3600) % 60);
    assert((r % 3600) % 60 == r % 60);
}

/// By how many days of the week a month shifts the days of a year; a year that
/// has seen its leap day has shifted by one more.
pub open spec fn month_shift(m: int) -> int {
    if m == 1 || m == 5 {
        0
    } else if m == 8 {
        1
    } else if m == 3 || m == 11 {
        2
    } else if m == 2 || m == 6 {
        3
    } else if m == 9 || m == 12 {
        4
    } else if m == 4 || m == 7 {
        5
    } else {
        6
    }
}

/// Years in weeks and days.
proof fn years_in_weeks(y: int)
    ensures
        ({
            let base = (y - 1) + (y - 1) / 4 - (y - 1) / 100 + (y - 1) / 400;
            &&& year_start(y) == 364 * (y - 1970) + base - 2446
            &&& y + y / 4 - y / 100 + y / 400 == base + 1 + lasts(y, 2) - 28
        }),
{
    assert(leap_days_before(1970) == 477);
    years_follow(y);
    assert(leap_days_before(y + 1) == y / 4 - y / 100 + y / 400);
}

/// The weekday of a date can be told from the date alone: by the year, its leap
/// days, the month and the day, from Sunday on.
pub proof fn weekdays_follow_from_dates(t: CivilTime, local: int)
    requires
        civil_of(t, local),
    ensures
        ({
            let y = if t.month < 3 {
                t.year - 1
            } else {
                t.year as int
            };
            t.weekday == (y + y / 4 - y / 100 + y / 400 + month_shift(t.month as int) + t.day) % 7
        }),
{
    weekday_of_a_date(t.year as int, t.month as int, t.day as int);
}

#[verifier::spinoff_prover]
proof fn weekday_of_a_date(y: int, m: int, d: int)
    requires
        1 <= m <= 12,
    ensures
        ({
            let z = if m < 3 {
                y - 1
            } else {
                y
            };
            (day_number(y, m, d) + 4) % 7 == (z + z / 4 - z / 100 + z / 400 + month_shift(m) + d)
                % 7
        }),
{
    let z = if m < 3 {
        y - 1
    } else {
        y
    };
    let n = day_number(y, m, d) + 4;
    let other = z + z / 4 - z / 100 + z / 400 + month_shift(m) + d;
    weeks_between(y, m, d);
    let k = choose|k: int| weeks_apart(n, other, k);
    weeks_do_not_count(n, other, k);
}

proof fn weeks_do_not_count(a: int, b: int, k: int)
    requires
        weeks_apart(a, b, k),
    ensures
        a % 7 == b % 7,
{
}

spec fn weeks_apart(a: int, b: int, k: int) -> bool {
    a == b + 7 * k
}

spec fn exists_weeks(a: int, b: int) -> bool {
    exists|k: int| weeks_apart(a, b, k)
}

#[verifier::spinoff_prover]
proof fn weeks_between(y: int, m: int, d: int)
    requires
        1 <= m <= 12,
    ensures
        ({
            let z = if m < 3 {
                y - 1
            } else {
                y
            };
            exists_weeks(
                day_number(y, m, d) + 4,
                z + z / 4 - z / 100 + z / 400 + month_shift(m) + d,
            )
        }),
{
    years_in_weeks(y);
    days_before_the_months(y);
    let base = (y - 1) + (y - 1) / 4 - (y - 1) / 100 + (y - 1) / 400;
    let l = lasts(y, 2) - 28;
    let n = day_number(y, m, d) + 4;
    let weeks = 52 * (y - 1970);
    if m == 1 {
        assert(weeks_apart(n, base + d, weeks - 349));
    } else if m == 2 {
        assert(weeks_apart(n, base + 3 + d, weeks - 345));
    } else if m == 3 {
        assert(weeks_apart(n, base + 1 + l + 2 + d, weeks - 341));
    } else if m == 4 {
        assert(weeks_apart(n, base + 1 + l + 5 + d, weeks - 337));
    } else if m == 5 {
        assert(weeks_apart(n, base + 1 + l + 0 + d, weeks - 332));
    } else if m == 6 {
        assert(weeks_apart(n, base + 1 + l + 3 + d, weeks - 328));
    } else if m == 7 {
        assert(weeks_apart(n, base + 1 + l + 5 + d, weeks - 324));
    } else if m == 8 {
        assert(weeks_apart(n, base + 1 + l + 1 + d, weeks - 319));
    } else if m == 9 {
        assert(weeks_apart(n, base + 1 + l + 4 + d, weeks - 315));
    } else if m == 10 {
        assert(weeks_apart(n, base + 1 + l + 6 + d, weeks - 311));
    } else if m == 11 {
        assert(weeks_apart(n, base + 1 + l + 2 + d, weeks - 306));
    } else {
        assert(weeks_apart(n, base + 1 + l + 4 + d, weeks - 302));
    }
}

// ---------------------------------------------------------------------------
// Written numbers
// ---------------------------------------------------------------------------

proof fn decimals_are_digits(n: nat)
    ensures
        forall|i: int| 0 <= i < decimal(n).len() ==> is_digit(#[trigger] decimal(n)[i]),
        decimal(n).len() > 0,
        n >= 10 ==> decimal(n).len() > 1,
    decreases n,
{
    if n >= 10 {
        decimals_are_digits(n / 10);
    }
}

/// A number written in decimal digits is that number, and starts with a nought
/// only where it is nought.
pub proof fn decimals_write_the_number(n: nat)
    ensures
        written(decimal(n)) == n,
        n > 0 ==> decimal(n)[0] != '0',
        n < 10 ==> decimal(n).len() == 1,
        10 <= n < 100 ==> decimal(n).len() == 2,
        100 <= n < 1000 ==> decimal(n).len() == 3,
        1000 <= n < 10_000 ==> decimal(n).len() == 4,
    decreases n,
{
    reveal_with_fuel(written, 2);
    if n >= 10 {
        decimals_write_the_number(n / 10);
        assert(decimal(n).drop_last() =~= decimal(n / 10));
        decimals_are_digits(n / 10);
    } else {
        assert(decimal(n).drop_last() =~= Seq::<char>::empty());
    }
}

proof fn noughts_in_front_write_nothing(k: int, s: Seq<char>)
    ensures
        written(noughts(k) + s) == written(s),
    decreases s.len(),
{
    if s.len() == 0 {
        assert(noughts(k) + s =~= noughts(k));
        noughts_write_nothing(k);
    } else {
        noughts_in_front_write_nothing(k, s.drop_last());
        assert((noughts(k) + s).drop_last() =~= noughts(k) + s.drop_last());
        assert((noughts(k) + s).last() == s.last());
    }
}

proof fn noughts_write_nothing(k: int)
    ensures
        written(noughts(k)) == 0,
    decreases k,
{
    if k > 0 {
        noughts_write_nothing(k - 1);
        assert(noughts(k).drop_last() =~= noughts(k - 1));
    }
}

/// A number that is filled up to a width is written in that width where it has
/// no more digits, and is still that number.
pub proof fn filled_up_numbers_are_written(n: int)
    requires
        n >= 0,
    ensures
        written(filled_up(n, 2)) == n,
        written(filled_up(n, 4)) == n,
        n < 100 ==> filled_up(n, 2).len() == 2,
        n < 10_000 ==> filled_up(n, 4).len() == 4,
{
    decimals_write_the_number(n as nat);
    noughts_in_front_write_nothing(2 - decimal(n as nat).len(), decimal(n as nat));
    noughts_in_front_write_nothing(4 - decimal(n as nat).len(), decimal(n as nat));
}

// ---------------------------------------------------------------------------
// Dates and times as texts
// ---------------------------------------------------------------------------

/// Whether a text tells a date: the year, the month and the day, each in its
/// place, with hyphens between them.
pub open spec fn tells_the_date(s: Seq<char>, t: CivilTime) -> bool {
    &&& s.len() >= 10
    &&& s[4] == '-' && s[7] == '-'
    &&& written(s.subrange(0, 4)) == t.year
    &&& written(s.subrange(5, 7)) == t.month
    &&& written(s.subrange(8, 10)) == t.day
}

proof fn dates_tell(t: CivilTime)
    requires
        0 <= t.year < 10_000,
        t.month < 100,
        t.day < 100,
    ensures
        tells_the_date(date_text(t), t),
        date_text(t).len() == 10,
{
    reveal_strlit("-");
    filled_up_numbers_are_written(t.year as int);
    filled_up_numbers_are_written(t.month as int);
    filled_up_numbers_are_written(t.day as int);
    let s = date_text(t);
    assert(s.subrange(0, 4) =~= filled_up(t.year as int, 4));
    assert(s.subrange(5, 7) =~= filled_up(t.month as int, 2));
    assert(s.subrange(8, 10) =~= filled_up(t.day as int, 2));
}

/// The trigger of dates stands for the date of the day, in ten characters, as
/// long as years have up to four digits.
pub proof fn the_date_is_told(spec: DateSpec, now: u64, offset: int, t: CivilTime)
    requires
        0 <= t.year < 10_000,
        date_exists(t.year as int, t.month as int, t.day as int),
    ensures
        ({
            let r = date_for(spec, spec.date@, now, offset, t);
            &&& r.len() == 1 && r[0].0.len() == 10
            &&& tells_the_date(r[0].0, t)
        }),
{
    dates_tell(t);
}

/// The trigger of times stands for the hour and the minute, in five characters.
pub proof fn the_time_is_told(spec: DateSpec, now: u64, offset: int, t: CivilTime)
    requires
        t.hour < 24,
        t.minute < 60,
        spec.time@ != spec.date@,
    ensures
        ({
            let r = date_for(spec, spec.time@, now, offset, t);
            &&& r.len() == 1 && r[0].0.len() == 5
            &&& r[0].0[2] == ':'
            &&& written(r[0].0.subrange(0, 2)) == t.hour
            &&& written(r[0].0.subrange(3, 5)) == t.minute
        }),
{
    reveal_strlit(":");
    filled_up_numbers_are_written(t.hour as int);
    filled_up_numbers_are_written(t.minute as int);
    let s = date_for(spec, spec.time@, now, offset, t)[0].0;
    assert(s.subrange(0, 2) =~= filled_up(t.hour as int, 2));
    assert(s.subrange(3, 5) =~= filled_up(t.minute as int, 2));
}

/// The trigger of moments stands for the date, the time of day and the offset
/// from universal time, in twenty-five characters: the sign and the size of the
/// offset tell it to the minute.
pub proof fn the_moment_is_told(spec: DateSpec, now: u64, offset: int, t: CivilTime)
    requires
        0 <= t.year < 10_000,
        date_exists(t.year as int, t.month as int, t.day as int),
        t.hour < 24,
        t.minute < 60,
        t.second < 60,
        -360_000 < offset < 360_000,
        spec.datetime@ != spec.date@,
        spec.datetime@ != spec.time@,
        spec.datetime@ != spec.week@,
    ensures
        ({
            let r = date_for(spec, spec.datetime@, now, offset, t);
            let s = r[0].0;
            let hours = written(s.subrange(20, 22));
            let minutes = written(s.subrange(23, 25));
            let size = hours * 3600 + minutes * 60;
            &&& r.len() == 1 && s.len() == 25
            &&& tells_the_date(s, t)
            &&& s[10] == 'T' && s[13] == ':' && s[16] == ':' && s[22] == ':'
            &&& written(s.subrange(11, 13)) == t.hour
            &&& written(s.subrange(14, 16)) == t.minute
            &&& written(s.subrange(17, 19)) == t.second
            &&& minutes < 60
            &&& offset >= 0 ==> s[19] == '+' && size <= offset < size + 60
            &&& offset < 0 ==> s[19] == '-' && size <= -offset < size + 60
        }),
{
    reveal_strlit("-");
    reveal_strlit("+");
    reveal_strlit(":");
    reveal_strlit("T");
    dates_tell(t);
    let abs = if offset < 0 {
        -offset
    } else {
        offset
    };
    let h = abs / 3600;
    let m = (abs % 3600) / 60;
    filled_up_numbers_are_written(t.hour as int);
    filled_up_numbers_are_written(t.minute as int);
    filled_up_numbers_are_written(t.second as int);
    filled_up_numbers_are_written(h);
    filled_up_numbers_are_written(m);
    let d = date_text(t);
    let s = iso_text(t, offset);
    assert(s.subrange(0, 4) =~= d.subrange(0, 4));
    assert(s.subrange(5, 7) =~= d.subrange(5, 7));
    assert(s.subrange(8, 10) =~= d.subrange(8, 10));
    assert(s.subrange(11, 13) =~= filled_up(t.hour as int, 2));
    assert(s.subrange(14, 16) =~= filled_up(t.minute as int, 2));
    assert(s.subrange(17, 19) =~= filled_up(t.second as int, 2));
    assert(s.subrange(20, 22) =~= filled_up(h, 2));
    assert(s.subrange(23, 25) =~= filled_up(m, 2));
}

/// The trigger of timestamps stands for the seconds that have passed.
pub proof fn the_timestamp_is_told(spec: DateSpec, now: u64, offset: int, t: CivilTime)
    requires
        spec.timestamp@ != spec.date@,
        spec.timestamp@ != spec.time@,
        spec.timestamp@ != spec.week@,
        spec.timestamp@ != spec.datetime@,
    ensures
        date_for(spec, spec.timestamp@, now, offset, t).len() == 1,
        written(date_for(spec, spec.timestamp@, now, offset, t)[0].0) == now,
{
    decimals_write_the_number(now as nat);
}

/// The trigger of weekdays stands for the name of the weekday, which ends with
/// its number, but for Sunday.
pub proof fn the_weekday_is_told(spec: DateSpec, now: u64, offset: int, t: CivilTime)
    requires
        t.weekday < 7,
        spec.week@ != spec.date@,
        spec.week@ != spec.time@,
    ensures
        ({
            let r = date_for(spec, spec.week@, now, offset, t);
            &&& r.len() == 1 && r[0].0.len() == 3
            &&& r[0].0[0] == '星' && r[0].0[1] == '期'
            &&& counts(r[0].0[2]) == t.weekday
            &&& t.weekday == 0 ==> r[0].0[2] == '日'
        }),
{
    reveal_strlit("星期一");
    reveal_strlit("星期二");
    reveal_strlit("星期三");
    reveal_strlit("星期四");
    reveal_strlit("星期五");
    reveal_strlit("星期六");
    reveal_strlit("星期日");
}

/// An input that is none of the triggers stands for nothing.
pub proof fn other_words_tell_no_date(
    spec: DateSpec,
    input: Seq<char>,
    now: u64,
    offset: int,
    t: CivilTime,
)
    requires
        input != spec.date@,
        input != spec.time@,
        input != spec.week@,
        input != spec.datetime@,
        input != spec.timestamp@,
        input != spec.date_zh@,
        input != spec.date_en@,
    ensures
        date_for(spec, input, now, offset, t).len() == 0,
{
}

// ---------------------------------------------------------------------------
// Dates in words
// ---------------------------------------------------------------------------

proof fn chinese_digits(d: int)
    requires
        0 <= d <= 9,
    ensures
        digit_zh(d).len() == 1,
        counts(digit_zh(d)[0]) == d,
        d == 0 ==> digit_zh(d)[0] == '〇',
{
    reveal_strlit("一");
    reveal_strlit("二");
    reveal_strlit("三");
    reveal_strlit("四");
    reveal_strlit("五");
    reveal_strlit("六");
    reveal_strlit("七");
    reveal_strlit("八");
    reveal_strlit("九");
    reveal_strlit("〇");
}

/// Digits in Chinese stand in the places of the digits, and each counts what
/// its digit is worth.
pub proof fn chinese_digits_tell_the_digits(s: Seq<char>, i: int)
    requires
        forall|j: int| 0 <= j < s.len() ==> is_digit(#[trigger] s[j]),
        0 <= i < s.len(),
    ensures
        digits_zh(s).len() == s.len(),
        counts(digits_zh(s)[i]) == s[i] as int - '0' as int,
        s[i] == '0' ==> digits_zh(s)[i] == '〇',
    decreases s.len(),
{
    let n = s.len() as int;
    assert(is_digit(s[n - 1]));
    chinese_digits(s[n - 1] as int - 48);
    let t = s.drop_last();
    if n > 1 {
        assert forall|j: int| 0 <= j < t.len() implies is_digit(#[trigger] t[j]) by {
            assert(t[j] == s[j]);
        }
        chinese_digits_tell_the_digits(t, if i < n - 1 {
            i
        } else {
            0
        });
    } else {
        assert(digits_zh(t) =~= Seq::<char>::empty());
    }
}

proof fn heard_of_one(a: char)
    ensures
        counts(a) > 0 ==> told(seq![a]) == counts(a),
        a == '十' ==> told(seq![a]) == 10,
{
    reveal_with_fuel(crate::inline::number_worth::listened, 2);
    assert(seq![a].drop_last() =~= Seq::<char>::empty());
}

proof fn heard_of_two(a: char, b: char)
    ensures
        counts(a) > 0 && b == '十' ==> told(seq![a, b]) == 10 * counts(a),
        a == '十' && counts(b) > 0 ==> told(seq![a, b]) == 10 + counts(b),
{
    reveal_with_fuel(crate::inline::number_worth::listened, 3);
    assert(seq![a, b].drop_last() =~= seq![a]);
    assert(seq![a].drop_last() =~= Seq::<char>::empty());
}

proof fn heard_of_three(a: char, b: char, c: char)
    ensures
        counts(a) > 0 && b == '十' && counts(c) > 0 ==> told(seq![a, b, c]) == 10 * counts(a)
            + counts(c),
{
    reveal_with_fuel(crate::inline::number_worth::listened, 4);
    assert(seq![a, b, c].drop_last() =~= seq![a, b]);
    assert(seq![a, b].drop_last() =~= seq![a]);
    assert(seq![a].drop_last() =~= Seq::<char>::empty());
}

/// The name of a day of the month tells its number.
pub proof fn day_names_tell_the_day(d: int)
    requires
        1 <= d <= 31,
    ensures
        told(day_name(d)) == d,
{
    reveal_strlit("十");
    reveal_strlit("二十");
    reveal_strlit("三十");
    reveal_strlit("三十一");
    if d <= 9 {
        chinese_digits(d);
        assert(day_name(d) =~= seq![digit_zh(d)[0]]);
        heard_of_one(digit_zh(d)[0]);
    } else if d == 10 {
        assert(day_name(d) =~= seq!['十']);
        heard_of_one('十');
    } else if d <= 19 {
        chinese_digits(d - 10);
        let c = digit_zh(d - 10)[0];
        assert(day_name(d) =~= seq!['十', c]);
        heard_of_two('十', c);
    } else if d == 20 {
        assert(day_name(d) =~= seq!['二', '十']);
        heard_of_two('二', '十');
    } else if d <= 29 {
        chinese_digits(d - 20);
        let c = digit_zh(d - 20)[0];
        assert(day_name(d) =~= seq!['二', '十', c]);
        heard_of_three('二', '十', c);
    } else if d == 30 {
        assert(day_name(d) =~= seq!['三', '十']);
        heard_of_two('三', '十');
    } else {
        assert(day_name(d) =~= seq!['三', '十', '一']);
        heard_of_three('三', '十', '一');
    }
}

/// The name of a month tells its number, and ends with the word for months.
pub proof fn month_names_tell_the_month(m: int)
    requires
        1 <= m <= 12,
    ensures
        month_zh(m).len() > 1,
        month_zh(m).last() == '月',
        told(month_zh(m).drop_last()) == m,
{
    reveal_strlit("一月");
    reveal_strlit("二月");
    reveal_strlit("三月");
    reveal_strlit("四月");
    reveal_strlit("五月");
    reveal_strlit("六月");
    reveal_strlit("七月");
    reveal_strlit("八月");
    reveal_strlit("九月");
    reveal_strlit("十月");
    reveal_strlit("十一月");
    reveal_strlit("十二月");
    let s = month_zh(m).drop_last();
    assert(m == 1 || m == 2 || m == 3 || m == 4 || m == 5 || m == 6 || m == 7 || m == 8 || m == 9
        || m == 10 || m == 11 || m == 12);
    if m <= 10 {
        assert(s =~= seq![month_zh(m)[0]]);
        heard_of_one(month_zh(m)[0]);
    } else {
        assert(s =~= seq!['十', month_zh(m)[1]]);
        heard_of_two('十', month_zh(m)[1]);
    }
}

/// A date in Chinese words tells the year digit by digit, the month and the day.
pub proof fn the_date_is_told_in_chinese(spec: DateSpec, now: u64, offset: int, t: CivilTime)
    requires
        t.year >= 0,
        date_exists(t.year as int, t.month as int, t.day as int),
        spec.date_zh@ != spec.date@,
        spec.date_zh@ != spec.time@,
        spec.date_zh@ != spec.week@,
        spec.date_zh@ != spec.datetime@,
        spec.date_zh@ != spec.timestamp@,
    ensures
        ({
            let r = date_for(spec, spec.date_zh@, now, offset, t);
            r.len() == 1 && exists|y: Seq<char>, m: Seq<char>, d: Seq<char>|
                {
                    &&& r[0].0 == #[trigger] (y + "年"@ + m + "月"@ + d + "日"@)
                    &&& y == digits_zh(decimal(t.year as nat))
                    &&& told(m) == t.month
                    &&& told(d) == t.day
                }
        }),
{
    reveal_strlit("月");
    month_names_tell_the_month(t.month as int);
    day_names_tell_the_day(t.day as int);
    let y = digits_zh(decimal(t.year as nat));
    let m = month_zh(t.month as int).drop_last();
    let d = day_name(t.day as int);
    let r = date_for(spec, spec.date_zh@, now, offset, t);
    assert(m + "月"@ =~= month_zh(t.month as int));
    assert(r[0].0 =~= y + "年"@ + m + "月"@ + d + "日"@);
}

/// The English name of a month starts with its three letters.
pub proof fn english_months_are_in_order(m: int)
    requires
        1 <= m <= 12,
    ensures
        "JanFebMarAprMayJunJulAugSepOctNovDec"@.subrange(3 * m - 3, 3 * m).is_prefix_of(
            month_en(m),
        ),
{
    reveal_strlit("JanFebMarAprMayJunJulAugSepOctNovDec");
    reveal_strlit("January");
    reveal_strlit("February");
    reveal_strlit("March");
    reveal_strlit("April");
    reveal_strlit("May");
    reveal_strlit("June");
    reveal_strlit("July");
    reveal_strlit("August");
    reveal_strlit("September");
    reveal_strlit("October");
    reveal_strlit("November");
    reveal_strlit("December");
    let all = "JanFebMarAprMayJunJulAugSepOctNovDec"@;
    assert(m == 1 || m == 2 || m == 3 || m == 4 || m == 5 || m == 6 || m == 7 || m == 8 || m == 9
        || m == 10 || m == 11 || m == 12);
    assert(all.subrange(3 * m - 3, 3 * m) =~= month_en(m).take(3));
}

/// A date in English tells the month by its name, the day and the year.
pub proof fn the_date_is_told_in_english(spec: DateSpec, now: u64, offset: int, t: CivilTime)
    requires
        t.year >= 0,
        spec.date_en@ != spec.date@,
        spec.date_en@ != spec.time@,
        spec.date_en@ != spec.week@,
        spec.date_en@ != spec.datetime@,
        spec.date_en@ != spec.timestamp@,
        spec.date_en@ != spec.date_zh@,
    ensures
        ({
            let r = date_for(spec, spec.date_en@, now, offset, t);
            r.len() == 1 && exists|d: Seq<char>, y: Seq<char>|
                {
                    &&& r[0].0 == #[trigger] (month_en(t.month as int) + " "@ + d + ", "@ + y)
                    &&& written(d) == t.day
                    &&& written(y) == t.year
                }
        }),
{
    let d = decimal(t.day as nat);
    let y = decimal(t.year as nat);
    decimals_write_the_number(t.day as nat);
    decimals_write_the_number(t.year as nat);
    let r = date_for(spec, spec.date_en@, now, offset, t);
    assert(r[0].0 =~= month_en(t.month as int) + " "@ + d + ", "@ + y);
}

} // verus!
