//! The proleptic Gregorian calendar as arithmetic on integers: what a civil
//! date is, how many days lie between it and 1970-01-01, and the proof that
//! the era-based conversion inverts that count.

use vstd::prelude::*;

verus! {

/// Whether year `y` has a 29th of February.
pub open spec fn is_leap_year(y: int) -> bool {
    y % 4 == 0 && (y % 100 != 0 || y % 400 == 0)
}

/// The number of days of year `y`.
pub open spec fn days_in_year(y: int) -> int {
    if is_leap_year(y) {
        366
    } else {
        365
    }
}

/// The number of days of month `m` (1 to 12) of year `y`.
pub open spec fn days_in_month(y: int, m: int) -> int {
    if m == 2 {
        if is_leap_year(y) {
            29
        } else {
            28
        }
    } else if m == 4 || m == 6 || m == 9 || m == 11 {
        30
    } else {
        31
    }
}

/// Whether year, month and day name a day of the calendar.
pub open spec fn is_civil_date(y: int, m: int, d: int) -> bool {
    1 <= m <= 12 && 1 <= d <= days_in_month(y, m)
}

/// The number of leap years among the years 1 to `y`.
pub open spec fn leap_years_through(y: int) -> int {
    y / 4 - y / 100 + y / 400
}

/// The number of days from 1970-01-01 to the first of January of year `y`;
/// negative for earlier years.
pub open spec fn days_before_year(y: int) -> int {
    365 * (y - 1970) + leap_years_through(y - 1) - leap_years_through(1969)
}

/// The number of days of year `y` that lie before its month `m`.
pub open spec fn days_before_month(y: int, m: int) -> int
    decreases m,
{
    if m <= 1 {
        0
    } else {
        days_before_month(y, m - 1) + days_in_month(y, m - 1)
    }
}

/// The number of days from 1970-01-01 to the given day; negative for
/// earlier days.
pub open spec fn days_from_civil(y: int, m: int, d: int) -> int {
    days_before_year(y) + days_before_month(y, m) + d - 1
}

/// Within an era of 146097 days that starts on a first of March, the year
/// and the day of the year that the day `doe` falls in.
pub proof fn lemma_year_of_era(doe: u32)
    by (bit_vector)
    requires
        doe <= 146096,
    ensures
        ({
            let yoe = (doe - doe / 1460 + doe / 36524 - doe / 146096) / 365;
            let doy = doe - (365 * yoe + yoe / 4 - yoe / 100);
            &&& yoe <= 399
            &&& 365 * yoe + yoe / 4 - yoe / 100 <= doe
            &&& doy <= 365
            &&& doy == 365 ==> yoe % 4 == 3 && (yoe % 100 != 99 || yoe == 399)
        }),
{
}

/// Within a year that starts on a first of March, the month (0 for March)
/// that the day `doy` falls in, and the number of days of that year before
/// the month.
pub proof fn lemma_month_of_year(doy: u32)
    by (bit_vector)
    requires
        doy <= 365,
    ensures
        ({
            let mp = (5 * doy + 2) / 153;
            let before = (153 * mp + 2) / 5;
            &&& mp <= 11
            &&& before <= doy
            &&& doy - before <= 30
            &&& (mp == 1 || mp == 3 || mp == 6 || mp == 8) ==> doy - before <= 29
            &&& mp == 0 ==> before == 0
            &&& mp == 1 ==> before == 31
            &&& mp == 2 ==> before == 61
            &&& mp == 3 ==> before == 92
            &&& mp == 4 ==> before == 122
            &&& mp == 5 ==> before == 153
            &&& mp == 6 ==> before == 184
            &&& mp == 7 ==> before == 214
            &&& mp == 8 ==> before == 245
            &&& mp == 9 ==> before == 275
            &&& mp == 10 ==> before == 306
            &&& mp == 11 ==> before == 337
        }),
{
}

/// Splitting a year into its 400-year cycle and its place in the cycle
/// splits the leap-year arithmetic with it.
pub proof fn lemma_cycle(e: int, r: int)
    requires
        0 <= r < 400,
    ensures
        leap_years_through(400 * e + r) == 97 * e + r / 4 - r / 100,
        is_leap_year(400 * e + r) == (r % 4 == 0 && (r % 100 != 0 || r == 0)),
{
    let y = 400 * e + r;
    vstd::arithmetic::div_mod::lemma_fundamental_div_mod_converse(y, 4, 100 * e + r / 4, r % 4);
    vstd::arithmetic::div_mod::lemma_fundamental_div_mod_converse(y, 100, 4 * e + r / 100, r % 100);
    vstd::arithmetic::div_mod::lemma_fundamental_div_mod_converse(y, 400, e, r);
}

/// The closed form of `days_before_year` counts year by year: it is zero for
/// 1970 and grows by the length of each year.
pub proof fn lemma_days_before_year_step(y: int)
    ensures
        days_before_year(1970) == 0,
        days_before_year(y + 1) == days_before_year(y) + days_in_year(y),
{
    let e = y / 400;
    let r = y % 400;
    lemma_cycle(e, r);
    if r == 0 {
        lemma_cycle(e - 1, 399);
    } else {
        lemma_cycle(e, r - 1);
    }
}

/// The days of a year before each of its months, written out.
pub proof fn lemma_days_before_month(y: int, m: int)
    requires
        1 <= m <= 12,
    ensures
        m <= 2 ==> days_before_month(y, m) == 31 * (m - 1),
        m >= 3 ==> days_before_month(y, m) == days_in_year(y) - 306 + (153 * (m - 3) + 2) / 5,
{
    reveal_with_fuel(days_before_month, 13);
}

/// The era-based conversion is right: taking the 400-year era of a day, the
/// year within the era, the day within that year and its month, all counted
/// from a first of March, and moving January and February to the next year,
/// gives the civil date that lies `days` days from 1970-01-01.
pub proof fn lemma_civil_from_days(days: int, era: int, doe: int, yoe: int, doy: int, mp: int)
    requires
        era == (days + 719468) / 146097,
        doe == days + 719468 - era * 146097,
        yoe == (doe - doe / 1460 + doe / 36524 - doe / 146096) / 365,
        doy == doe - (365 * yoe + yoe / 4 - yoe / 100),
        mp == (5 * doy + 2) / 153,
    ensures
        0 <= doe <= 146096,
        0 <= yoe <= 399,
        0 <= doy <= 365,
        0 <= mp <= 11,
        ({
            let d = doy - (153 * mp + 2) / 5 + 1;
            let m = if mp < 10 {
                mp + 3
            } else {
                mp - 9
            };
            let y = yoe + era * 400 + if m <= 2 {
                1int
            } else {
                0int
            };
            is_civil_date(y, m, d) && days_from_civil(y, m, d) == days
        }),
{
    assert(0 <= doe <= 146096);
    lemma_year_of_era(doe as u32);
    assert(0 <= yoe <= 399 && 0 <= doy <= 365);
    lemma_month_of_year(doy as u32);
    let before = (153 * mp + 2) / 5;
    let d = doy - before + 1;
    let m = if mp < 10 {
        mp + 3
    } else {
        mp - 9
    };
    if mp < 10 {
        let y = yoe + era * 400;
        lemma_cycle(era, yoe);
        lemma_days_before_year_step(y);
        lemma_days_before_month(y, m);
        assert(days_from_civil(y, m, d) == days);
    } else {
        let y = yoe + era * 400 + 1;
        lemma_cycle(era, yoe);
        if yoe == 399 {
            lemma_cycle(era + 1, 0);
        } else {
            lemma_cycle(era, yoe + 1);
        }
        lemma_days_before_month(y, m);
        assert(days_before_year(y) == 365 * (y - 1970) + 97 * era + yoe / 4 - yoe / 100 - 477);
        assert(days_from_civil(y, m, d) == days);
    }
}

/// A civil date lies within its year.
pub proof fn lemma_day_within_year(y: int, m: int, d: int)
    requires
        is_civil_date(y, m, d),
    ensures
        days_before_year(y) <= days_from_civil(y, m, d) < days_before_year(y + 1),
{
    lemma_days_before_year_step(y);
    reveal_with_fuel(days_before_month, 13);
}

/// Later years start later.
pub proof fn lemma_days_before_year_monotonic(y1: int, y2: int)
    requires
        y1 <= y2,
    ensures
        days_before_year(y1) <= days_before_year(y2),
    decreases y2 - y1,
{
    if y1 < y2 {
        lemma_days_before_year_monotonic(y1, y2 - 1);
        lemma_days_before_year_step(y2 - 1);
    }
}

/// No two civil dates lie the same number of days from 1970-01-01: the count
/// names the date.
pub proof fn lemma_days_from_civil_injective(y1: int, m1: int, d1: int, y2: int, m2: int, d2: int)
    requires
        is_civil_date(y1, m1, d1),
        is_civil_date(y2, m2, d2),
        days_from_civil(y1, m1, d1) == days_from_civil(y2, m2, d2),
    ensures
        y1 == y2,
        m1 == m2,
        d1 == d2,
{
    lemma_day_within_year(y1, m1, d1);
    lemma_day_within_year(y2, m2, d2);
    if y1 < y2 {
        lemma_days_before_year_monotonic(y1 + 1, y2);
    } else if y2 < y1 {
        lemma_days_before_year_monotonic(y2 + 1, y1);
    } else {
        reveal_with_fuel(days_before_month, 13);
    }
}

} // verus!
