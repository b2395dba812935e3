//! The civil calendar: which day a number of seconds since the Unix epoch
//! falls on.

use crate::clock::{clock_shows, unix_seconds_now};
use vstd::prelude::*;

verus! {

/// Seconds in a day.
pub const SECONDS_PER_DAY: u64 = 86_400;

/// A civil date (UTC) used to address a day's journal file.
#[derive(Debug, Clone, Copy, PartialEq, Eq, Structural)]
pub struct JournalDate {
    pub year: i32,
    pub month: u32,
    pub day: u32,
}

/// Every fourth year is a leap year, but of the full centuries only every
/// fourth.
pub open spec fn leap(year: int) -> bool {
    year % 4 == 0 && (year % 100 != 0 || year % 400 == 0)
}

/// How many days a year has.
pub open spec fn year_length(year: int) -> nat {
    if leap(year) {
        366
    } else {
        365
    }
}

/// How many days a month has.
pub open spec fn month_length(year: int, month: int) -> nat {
    if month == 2 {
        if leap(year) {
            29
        } else {
            28
        }
    } else if month == 4 || month == 6 || month == 9 || month == 11 {
        30
    } else {
        31
    }
}

/// The year, month and day that come `days` days after the first of `month`
/// in `year`, counted month by month.
pub open spec fn day_in_year(year: int, month: int, days: nat) -> (int, int, int)
    decreases 12 - month,
{
    if month >= 12 || days < month_length(year, month) {
        (year, month, days as int + 1)
    } else {
        day_in_year(year, month + 1, (days - month_length(year, month)) as nat)
    }
}

/// The year, month and day that come `days` days after the first of January of
/// `year`, counted year by year.
pub open spec fn day_from_year(year: int, days: nat) -> (int, int, int)
    decreases days,
{
    if days < year_length(year) {
        day_in_year(year, 1, days)
    } else {
        day_from_year(year + 1, (days - year_length(year)) as nat)
    }
}

/// The year, month and day that come `days` days after the first of January
/// 1970.
pub open spec fn civil_date(days: nat) -> (int, int, int) {
    day_from_year(1970, days)
}

/// The civil date (UTC) of a number of seconds since the Unix epoch. A year that an `i32` does
/// not hold wraps around.
pub open spec fn date_of_timestamp(secs: u64) -> JournalDate {
    let (year, month, day) = civil_date((secs / SECONDS_PER_DAY) as nat);
    JournalDate { year: year as i32, month: month as u32, day: day as u32 }
}

/// The date `a` lies before the date `b`.
pub open spec fn earlier(a: (int, int, int), b: (int, int, int)) -> bool {
    ||| a.0 < b.0
    ||| a.0 == b.0 && a.1 < b.1
    ||| a.0 == b.0 && a.1 == b.1 && a.2 < b.2
}

/// `date` is a day of the civil calendar.
pub open spec fn is_calendar_day(date: (int, int, int)) -> bool {
    &&& 1 <= date.1 <= 12
    &&& 1 <= date.2 <= month_length(date.0, date.1)
}

/// The day after `date`.
pub open spec fn next_day(date: (int, int, int)) -> (int, int, int) {
    if date.2 < month_length(date.0, date.1) {
        (date.0, date.1, date.2 + 1)
    } else if date.1 < 12 {
        (date.0, date.1 + 1, 1)
    } else {
        (date.0 + 1, 1, 1)
    }
}

/// The year, month and day of a journal date.
pub open spec fn parts(date: JournalDate) -> (int, int, int) {
    (date.year as int, date.month as int, date.day as int)
}

impl JournalDate {
    /// Today's date in UTC, derived from the system clock. Which day that is,
    /// is up to the clock.
    #[must_use]
    pub fn today_utc() -> (date: Self)
        ensures
            exists|secs: u64| #[trigger] clock_shows(secs) && date == date_of_timestamp(secs),
    {
        let secs = unix_seconds_now();
        Self::from_unix_timestamp(secs)
    }

    /// Converts a Unix timestamp (seconds) to a UTC civil date with Howard
    /// Hinnant's `civil_from_days` algorithm.
    #[must_use]
    pub fn from_unix_timestamp(secs: u64) -> (date: Self)
        ensures
            date == date_of_timestamp(secs),
    {
        let days: u64 = secs / SECONDS_PER_DAY;
        // Shift the epoch to 0000-03-01 so that the leap day ends a year.
        let z: u64 = days + 719_468;
        let era: u64 = z / 146_097;
        let doe: u64 = z - era * 146_097;
        proof {
            lemma_year_of_era(doe as int);
        }
        let yoe: u64 = (doe - doe / 1460 + doe / 36_524 - doe / 146_096) / 365;
        let y: u64 = yoe + era * 400;
        let doy: u64 = doe - (365 * yoe + yoe / 4 - yoe / 100);
        let mp: u64 = (5 * doy + 2) / 153;
        let d: u64 = doy - (153 * mp + 2) / 5 + 1;
        let m: u64 = if mp < 10 {
            mp + 3
        } else {
            mp - 9
        };
        let year: u64 = if m <= 2 {
            y + 1
        } else {
            y
        };
        proof {
            lemma_leap_in_era(era as int, yoe as int + 1);
            lemma_march_of_era(era as int, yoe as int);
            if doy < 306 {
                lemma_from_march(y as int, doy as int);
                lemma_day_of_year(
                    1970,
                    y as int,
                    days as nat,
                    (month_length(y as int, 1) + month_length(y as int, 2) + doy) as nat,
                );
            } else {
                lemma_from_january(y as int + 1, doy as int);
                lemma_day_of_year(1970, y as int + 1, days as nat, (doy - 306) as nat);
            }
        }
        JournalDate { year: year as i32, month: m as u32, day: d as u32 }
    }
}

/// How many days lie before the first of March of `year`, from the first of
/// March of the year zero on.
spec fn before_march(year: int) -> int {
    365 * year + year / 4 - year / 100 + year / 400
}

/// How many days lie before the first of January of `year`, from the first of
/// January 1970 on.
spec fn before_january(year: int) -> int {
    before_march(year - 1) + 306 - 719_468
}

/// Within an era of 400 years, each from March to February, the year of a day
/// and the day within that year.
proof fn lemma_year_of_era(doe: int)
    requires
        0 <= doe < 146_097,
    ensures
        ({
            let yoe = (doe - doe / 1460 + doe / 36_524 - doe / 146_096) / 365;
            let doy = doe - (365 * yoe + yoe / 4 - yoe / 100);
            &&& 0 <= yoe < 400
            &&& 0 <= doy <= 365
            &&& doy == 365 ==> leap(yoe + 1)
        }),
{
}

/// The calendar repeats every 400 years.
proof fn lemma_leap_in_era(era: int, year: int)
    ensures
        leap(year + era * 400) == leap(year),
{
}

/// Days before March, from the era and the year within it.
proof fn lemma_march_of_era(era: int, yoe: int)
    requires
        0 <= yoe < 400,
    ensures
        before_march(yoe + era * 400) == era * 146_097 + 365 * yoe + yoe / 4 - yoe / 100,
{
}

/// One year after another.
proof fn lemma_before_next_january(year: int)
    ensures
        before_january(year + 1) == before_january(year) + year_length(year),
{
}

/// Counting year by year from `from` reaches `year`.
proof fn lemma_day_of_year(from: int, year: int, days: nat, rest: nat)
    requires
        from <= year,
        rest < year_length(year),
        before_january(from) + days == before_january(year) + rest,
    ensures
        day_from_year(from, days) == day_in_year(year, 1, rest),
    decreases year - from,
{
    if from < year {
        lemma_before_next_january(from);
        lemma_january_order(from + 1, year);
        lemma_day_of_year(from + 1, year, (days - year_length(from)) as nat, rest);
    }
}

/// A later year begins later.
proof fn lemma_january_order(a: int, b: int)
    requires
        a <= b,
    ensures
        before_january(a) <= before_january(b),
    decreases b - a,
{
    if a < b {
        lemma_before_next_january(b - 1);
        lemma_january_order(a, b - 1);
    }
}

/// The months from March to December.
proof fn lemma_from_march(year: int, doy: int)
    requires
        0 <= doy < 306,
    ensures
        ({
            let mp = (5 * doy + 2) / 153;
            let days = (month_length(year, 1) + month_length(year, 2) + doy) as nat;
            &&& mp < 10
            &&& days < year_length(year)
            &&& before_january(year) + days == before_march(year) + doy - 719_468
            &&& day_in_year(year, 1, days) == (year, mp + 3, doy - (153 * mp + 2) / 5 + 1)
        }),
{
    reveal_with_fuel(day_in_year, 13);
}

/// January and February.
proof fn lemma_from_january(year: int, doy: int)
    requires
        306 <= doy <= 365,
        doy == 365 ==> leap(year),
    ensures
        ({
            let mp = (5 * doy + 2) / 153;
            &&& 10 <= mp <= 11
            &&& day_in_year(year, 1, (doy - 306) as nat) == (
                year,
                mp - 9,
                doy - (153 * mp + 2) / 5 + 1,
            )
        }),
{
    reveal_with_fuel(day_in_year, 3);
}

/// Counting within a year gives a day of the calendar, and one day more gives
/// the day after it.
proof fn lemma_next_in_year(year: int, month: int, days: nat)
    requires
        1 <= month <= 12,
        days < days_from_month(year, month),
    ensures
        is_calendar_day(day_in_year(year, month, days)),
        day_in_year(year, month, days).0 == year,
        days + 1 < days_from_month(year, month) ==> day_in_year(year, month, days + 1) == next_day(
            day_in_year(year, month, days),
        ),
        days + 1 == days_from_month(year, month) ==> day_in_year(year, month, days) == (
            year,
            12int,
            31int,
        ),
    decreases 12 - month,
{
    let length = month_length(year, month);
    reveal_with_fuel(day_in_year, 2);
    reveal_with_fuel(days_from_month, 2);
    if month < 12 && days >= length {
        lemma_next_in_year(year, month + 1, (days - length) as nat);
    } else if month < 12 && days + 1 == length {
        assert(month_length(year, month + 1) > 0);
    }
}

/// How many days a year has from the first of `month` on.
spec fn days_from_month(year: int, month: int) -> nat
    decreases 12 - month,
{
    if month >= 12 {
        31
    } else {
        month_length(year, month) + days_from_month(year, month + 1)
    }
}

/// Counting from a year gives a day of the calendar, and one day more gives
/// the day after it.
proof fn lemma_next_from_year(year: int, days: nat)
    ensures
        is_calendar_day(day_from_year(year, days)),
        day_from_year(year, days).0 >= year,
        day_from_year(year, days + 1) == next_day(day_from_year(year, days)),
    decreases days,
{
    reveal_with_fuel(days_from_month, 13);
    reveal_with_fuel(day_from_year, 2);
    assert(days_from_month(year, 1) == year_length(year));
    if days < year_length(year) {
        lemma_next_in_year(year, 1, days);
        if days + 1 == year_length(year) {
            assert(day_in_year(year + 1, 1, 0) == (year + 1, 1int, 1int));
        }
    } else {
        lemma_next_from_year(year + 1, (days - year_length(year)) as nat);
    }
}

/// Every number of days leads to a day of the civil calendar, not before 1970, and one day more
/// leads to the day after it.
pub proof fn law_days_follow_each_other(days: nat)
    ensures
        civil_date(0) == (1970int, 1int, 1int),
        is_calendar_day(civil_date(days)),
        civil_date(days).0 >= 1970,
        civil_date(days + 1) == next_day(civil_date(days)),
{
    lemma_next_from_year(1970, days);
    reveal_with_fuel(day_in_year, 2);
}

/// A later day has a later date.
pub proof fn law_later_days_have_later_dates(a: nat, b: nat)
    requires
        a < b,
    ensures
        earlier(civil_date(a), civil_date(b)),
    decreases b - a,
{
    let before = (b - 1) as nat;
    law_days_follow_each_other(before);
    if a < before {
        law_later_days_have_later_dates(a, before);
    }
}

/// As long as the year fits, of two timestamps the one on the later day has the later date, and
/// timestamps of one day have the same date.
pub proof fn law_dates_are_ordered_as_timestamps(a: u64, b: u64)
    requires
        civil_date((a / SECONDS_PER_DAY) as nat).0 <= i32::MAX,
        civil_date((b / SECONDS_PER_DAY) as nat).0 <= i32::MAX,
    ensures
        earlier(parts(date_of_timestamp(a)), parts(date_of_timestamp(b))) <==> a / SECONDS_PER_DAY
            < b / SECONDS_PER_DAY,
        date_of_timestamp(a) == date_of_timestamp(b) <==> a / SECONDS_PER_DAY == b
            / SECONDS_PER_DAY,
{
    let m = (a / SECONDS_PER_DAY) as nat;
    let n = (b / SECONDS_PER_DAY) as nat;
    law_days_follow_each_other(m);
    law_days_follow_each_other(n);
    assert(parts(date_of_timestamp(a)) == civil_date(m));
    assert(parts(date_of_timestamp(b)) == civil_date(n));
    if m < n {
        law_later_days_have_later_dates(m, n);
    } else if n < m {
        law_later_days_have_later_dates(n, m);
    }
}

/// A month has 31 days, or 30 for April, June, September and November. February
/// has 28, and 29 in the years that four divides, but of the full centuries only in
/// those that four hundred divides.
pub proof fn law_length_of_months(year: int, month: int)
    requires
        1 <= month <= 12,
    ensures
        month == 4 || month == 6 || month == 9 || month == 11 <==> month_length(year, month) == 30,
        month == 2 <==> month_length(year, month) < 30,
        month_length(year, month) <= 31,
        month_length(year, 2) == 29 || month_length(year, 2) == 28,
        month_length(year, 2) == 29 <==> year % 400 == 0 || year % 4 == 0 && year % 100 != 0,
        next_day((year, month, month_length(year, month) as int)) == if month == 12 {
            (year + 1, 1int, 1int)
        } else {
            (year, month + 1, 1int)
        },
        forall|day: int|
            day < month_length(year, month) ==> #[trigger] next_day((year, month, day)) == (
                year,
                month,
                day + 1,
            ),
{
}

/// A timestamp has the date of its day, as long as the year fits: a day has 86400
/// seconds, and the first day is the first of January 1970.
pub proof fn law_timestamp_has_the_date_of_its_day(days: nat, second: nat)
    requires
        second < 86_400,
        days * 86_400 + second <= u64::MAX,
        civil_date(days).0 <= i32::MAX,
    ensures
        ({
            let date = date_of_timestamp((days * 86_400 + second) as u64);
            (date.year as int, date.month as int, date.day as int) == civil_date(days)
        }),
{
    let secs = (days * 86_400 + second) as u64;
    assert((secs / SECONDS_PER_DAY) as nat == days);
    law_days_follow_each_other(days);
}

/// Of two dates, that of the later year is later, of the same year that of the
/// later month, of the same month that of the later day. None is later than itself,
/// and no two are each later than the other.
pub proof fn law_order_of_dates(a: (int, int, int), b: (int, int, int))
    ensures
        a.0 < b.0 ==> earlier(a, b),
        a.0 == b.0 && a.1 < b.1 ==> earlier(a, b),
        a.0 == b.0 && a.1 == b.1 && a.2 < b.2 ==> earlier(a, b),
        !(earlier(a, b) && earlier(b, a)),
        a == b ==> !earlier(a, b),
        earlier(a, next_day(a)) || a.2 > month_length(a.0, a.1),
{
}

} // verus!
