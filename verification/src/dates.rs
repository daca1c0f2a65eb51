//! Modification times: Windows FILETIME ticks and whole Unix seconds, and the
//! calendar date of a day number.

use vstd::prelude::*;

verus! {

/// FILETIME ticks (100 ns since 1601) at the Unix epoch.
pub const FILETIME_UNIX_EPOCH: i64 = 116_444_736_000_000_000;

/// FILETIME ticks per second.
pub const TICKS_PER_SECOND: i64 = 10_000_000;

/// Whole seconds since the Unix epoch; 0 stands for a time that is not known,
/// and for every time up to the epoch. Times past the range are cut to it.
pub open spec fn ticks_to_secs(ticks: i64) -> u32 {
    if ticks <= FILETIME_UNIX_EPOCH {
        0
    } else if (ticks - FILETIME_UNIX_EPOCH) / TICKS_PER_SECOND as int >= u32::MAX {
        u32::MAX
    } else {
        ((ticks - FILETIME_UNIX_EPOCH) / TICKS_PER_SECOND as int) as u32
    }
}

/// The ticks at which the second starts; 0 stays 0.
pub open spec fn secs_to_ticks(secs: u32) -> i64 {
    if secs == 0 {
        0
    } else {
        (FILETIME_UNIX_EPOCH + secs * TICKS_PER_SECOND) as i64
    }
}

/// Store a FILETIME as whole Unix seconds.
pub fn mtime_ticks_to_secs(ticks: i64) -> (r: u32)
    ensures
        r == ticks_to_secs(ticks),
{
    if ticks <= FILETIME_UNIX_EPOCH {
        return 0;
    }
    let past: u64 = (ticks - FILETIME_UNIX_EPOCH) as u64;
    let secs: u64 = past / (TICKS_PER_SECOND as u64);
    if secs >= u32::MAX as u64 {
        u32::MAX
    } else {
        secs as u32
    }
}

/// Read a stored second back as a FILETIME.
pub fn mtime_secs_to_ticks(secs: u32) -> (r: i64)
    ensures
        r == secs_to_ticks(secs),
{
    if secs == 0 {
        0
    } else {
        FILETIME_UNIX_EPOCH + secs as i64 * TICKS_PER_SECOND
    }
}

/// Storing what was read back gives the same second.
pub proof fn lemma_secs_round_trip(secs: u32)
    ensures
        ticks_to_secs(secs_to_ticks(secs)) == secs,
{
}

/// The calendar year `y` is a leap year.
pub open spec fn is_leap(y: int) -> bool {
    y % 4 == 0 && (y % 100 != 0 || y % 400 == 0)
}

/// The number of days before the first of March of year `y`, counted from the
/// first of March of year 0.
pub open spec fn days_before_march(y: int) -> int {
    365 * y + y / 4 - y / 100 + y / 400
}

/// The number of days from the first of March to the first of the month that
/// is the `m`-th after March.
pub open spec fn days_before_month(m: int) -> int {
    (153 * m + 2) / 5
}

/// The day number, counted from 1970-01-01, of a date.
pub open spec fn days_from_civil(y: int, m: int, d: int) -> int {
    let march_year = if m <= 2 {
        y - 1
    } else {
        y
    };
    let march_month = if m <= 2 {
        m + 9
    } else {
        m - 3
    };
    days_before_march(march_year) + days_before_month(march_month) + d - 1 - 719_468
}

/// The number of days of month `m` in year `y`.
pub open spec fn days_in_month(y: int, m: int) -> int {
    if m == 2 {
        if is_leap(y) {
            29
        } else {
            28
        }
    } else if m == 4 || m == 6 || m == 9 || m == 11 {
        30
    } else {
        31
    }
}

/// `(y, m, d)` is a date of the calendar.
pub open spec fn is_civil(y: int, m: int, d: int) -> bool {
    1 <= m <= 12 && 1 <= d <= days_in_month(y, m)
}

/// A date of the calendar.
#[derive(Clone, Copy, Debug, PartialEq, Eq, Structural)]
pub struct Civil {
    /// The year.
    pub y: i64,
    /// The month, from 1.
    pub m: u32,
    /// The day of the month, from 1.
    pub d: u32,
}

/// The days in 400 years.
const ERA_DAYS: i64 = 146_097;

/// The days from 0000-03-01 to 1970-01-01.
const EPOCH_DAYS: i64 = 719_468;

/// The year of an era, counted from March, in which a day of it falls.
fn year_of_era(day: i64) -> (year: i64)
    requires
        0 <= day < ERA_DAYS,
    ensures
        0 <= year < 400,
        days_before_march(year as int) <= day < days_before_march(year + 1),
{
    let mut year: i64 = day / 366;
    assert(days_before_march(year as int) <= 366 * year);
    while day >= 365 * (year + 1) + (year + 1) / 4 - (year + 1) / 100 + (year + 1) / 400
        invariant
            0 <= year < 400,
            0 <= day < ERA_DAYS,
            days_before_march(year as int) <= day,
        decreases 400 - year,
    {
        assert(days_before_march(400) == ERA_DAYS);
        year = year + 1;
    }
    year
}

/// The month, counted from March, and the day of it, of a day of a year that
/// starts in March.
fn month_of_year(in_year: i64) -> (r: (i64, i64))
    requires
        0 <= in_year <= 365,
    ensures
        0 <= r.0 <= 11,
        r.1 == in_year - days_before_month(r.0 as int) + 1,
        1 <= r.1,
        in_year < days_before_month(r.0 + 1),
{
    let month: i64 = (5 * in_year + 2) / 153;
    let d: i64 = in_year - (153 * month + 2) / 5 + 1;
    (month, d)
}

proof fn lemma_month_length(month: int, d: int, y: int, in_year: int)
    requires
        0 <= month <= 11,
        0 <= in_year <= 365,
        d == in_year - days_before_month(month) + 1,
        1 <= d,
        in_year < days_before_month(month + 1),
        in_year == 365 ==> is_leap(y),
    ensures
        d <= days_in_month(
            y,
            if month >= 10 {
                month - 9
            } else {
                month + 3
            },
        ),
{
    if month == 0 || month == 1 || month == 2 || month == 3 || month == 4 || month == 5 {
    } else if month == 6 || month == 7 || month == 8 || month == 9 || month == 10 {
    } else {
        assert(month == 11);
    }
}

proof fn lemma_year_length(year: int)
    requires
        0 <= year,
    ensures
        365 <= days_before_march(year + 1) - days_before_march(year) <= 366,
        days_before_march(year + 1) - days_before_march(year) == 366 ==> is_leap(year + 1),
{
}

proof fn lemma_eras(year: int, era: int)
    ensures
        days_before_march(year + era * 400) == era * ERA_DAYS + days_before_march(year),
        is_leap(year + era * 400) == is_leap(year),
{
    assert((year + era * 400) / 4 == year / 4 + era * 100);
    assert((year + era * 400) / 100 == year / 100 + era * 4);
    assert((year + era * 400) / 400 == year / 400 + era);
    assert((year + era * 400) % 4 == year % 4);
    assert((year + era * 400) % 100 == year % 100);
    assert((year + era * 400) % 400 == year % 400);
}

/// The date of a day counted from 1970-01-01.
pub fn civil_from_days(days: i64) -> (r: Civil)
    requires
        -0x4000_0000_0000_0000 <= days <= 0x4000_0000_0000_0000,
    ensures
        is_civil(r.y as int, r.m as int, r.d as int),
        days_from_civil(r.y as int, r.m as int, r.d as int) == days,
{
    let z: i64 = days + EPOCH_DAYS;
    let mut era: i64 = z / ERA_DAYS;
    let mut day: i64 = z % ERA_DAYS;
    if day < 0 {
        era = era - 1;
        day = day + ERA_DAYS;
    }
    assert(z == era * ERA_DAYS + day && 0 <= day < ERA_DAYS);
    let year: i64 = year_of_era(day);
    proof {
        lemma_year_length(year as int);
        lemma_eras(year as int, era as int);
        lemma_eras(year + 1, era as int);
    }
    let in_year: i64 = day - (365 * year + year / 4 - year / 100 + year / 400);
    let (month, d): (i64, i64) = month_of_year(in_year);
    let march_year: i64 = year + era * 400;
    let early: bool = month >= 10;
    proof {
        lemma_month_length(month as int, d as int, march_year + 1, in_year as int);
        if !early {
            assert(days_in_month(march_year + 1, month + 3) == days_in_month(
                march_year as int,
                month + 3,
            ));
        }
    }
    if early {
        Civil { y: march_year + 1, m: (month - 9) as u32, d: d as u32 }
    } else {
        Civil { y: march_year, m: (month + 3) as u32, d: d as u32 }
    }
}

/// The seconds are the whole seconds since 1970 began, counted from the ticks
/// of 100 nanoseconds since 1601; none before that, and no more than fit.
pub proof fn lemma_secs_of_ticks(ticks: i64)
    ensures
        ticks <= 116_444_736_000_000_000 ==> ticks_to_secs(ticks) == 0,
        116_444_736_000_000_000 < ticks < 116_444_736_000_000_000 + 4_294_967_296 * 10_000_000
            ==> ticks_to_secs(ticks) * 10_000_000 <= ticks - 116_444_736_000_000_000 < (
        ticks_to_secs(ticks) + 1) * 10_000_000,
        ticks >= 116_444_736_000_000_000 + 4_294_967_296 * 10_000_000 ==> ticks_to_secs(ticks)
            == 4_294_967_295,
{
}

/// A later time never gives fewer seconds.
pub proof fn lemma_secs_keep_order(a: i64, b: i64)
    requires
        a <= b,
    ensures
        ticks_to_secs(a) <= ticks_to_secs(b),
{
}

/// A second is ten million ticks, counted from 1970 on; no time at all is
/// none.
pub proof fn lemma_ticks_of_secs(secs: u32)
    ensures
        secs > 0 ==> secs_to_ticks(secs) == 116_444_736_000_000_000 + 10_000_000 * secs,
        secs == 0 ==> secs_to_ticks(secs) == 0,
{
}

/// More seconds give a later time.
pub proof fn lemma_ticks_keep_order(a: u32, b: u32)
    ensures
        a < b <==> secs_to_ticks(a) < secs_to_ticks(b),
{
}

/// Days are counted from the first day of 1970, one after the other: through
/// the days of a month, from the last of them into the next month, and from
/// the last day of December into the next year.
pub proof fn lemma_days_follow(y: int, m: int, d: int)
    requires
        is_civil(y, m, d),
    ensures
        days_from_civil(1970, 1, 1) == 0,
        d < days_in_month(y, m) ==> days_from_civil(y, m, d + 1) == days_from_civil(y, m, d) + 1,
        d == days_in_month(y, m) && m < 12 ==> days_from_civil(y, m + 1, 1) == days_from_civil(
            y,
            m,
            d,
        ) + 1,
        m == 12 && d == 31 ==> days_from_civil(y + 1, 1, 1) == days_from_civil(y, m, d) + 1,
{
    lemma_leap_day(y);
}

proof fn lemma_leap_day(y: int)
    ensures
        days_before_march(y) - days_before_march(y - 1) == if is_leap(y) {
            366int
        } else {
            365
        },
{
    assert(y / 4 - (y - 1) / 4 == if y % 4 == 0 {
        1int
    } else {
        0
    });
    assert(y / 100 - (y - 1) / 100 == if y % 100 == 0 {
        1int
    } else {
        0
    });
    assert(y / 400 - (y - 1) / 400 == if y % 400 == 0 {
        1int
    } else {
        0
    });
    assert(y % 400 == 0 ==> y % 100 == 0);
    assert(y % 100 == 0 ==> y % 4 == 0);
}

/// A month has as many days as it has: February a day more in a year that
/// four divides, but in no year that a hundred divides and four hundred does
/// not.
pub proof fn lemma_month_lengths(y: int)
    ensures
        days_in_month(y, 1) == 31 && days_in_month(y, 3) == 31 && days_in_month(y, 5) == 31,
        days_in_month(y, 7) == 31 && days_in_month(y, 8) == 31 && days_in_month(y, 10) == 31,
        days_in_month(y, 12) == 31,
        days_in_month(y, 4) == 30 && days_in_month(y, 6) == 30 && days_in_month(y, 9) == 30,
        days_in_month(y, 11) == 30,
        y % 4 != 0 ==> days_in_month(y, 2) == 28,
        y % 4 == 0 && y % 100 != 0 ==> days_in_month(y, 2) == 29,
        y % 100 == 0 && y % 400 != 0 ==> days_in_month(y, 2) == 28,
        y % 400 == 0 ==> days_in_month(y, 2) == 29,
{
    assert(y % 400 == 0 ==> y % 4 == 0);
}

} // verus!
