//! The civil calendar: which dates there are, and the days between them.

use vstd::prelude::*;

verus! {

/// Whether a year has a 29 February.
pub open spec fn is_leap(year: int) -> bool {
    year % 400 == 0 || (year % 4 == 0 && year % 100 != 0)
}

/// The number of days of a month.
pub open spec fn month_length(year: int, month: int) -> int {
    if month == 2 {
        if is_leap(year) {
            29
        } else {
            28
        }
    } else if month == 4 || month == 6 || month == 9 || month == 11 {
        30
    } else {
        31
    }
}

/// Whether the calendar has this date.
pub open spec fn is_date(year: int, month: int, day: int) -> bool {
    1 <= month <= 12 && 1 <= day <= month_length(year, month)
}

/// The number of leap years from year 0 up to this year, this year left out.
pub open spec fn leap_years_before(year: int) -> int {
    (year + 3) / 4 - (year + 99) / 100 + (year + 399) / 400
}

/// The days from 1 January of year 0 to 1 January of this year.
pub open spec fn days_before_year(year: int) -> int {
    365 * year + leap_years_before(year)
}

/// The days of the year before the first of this month.
pub open spec fn days_before_month(year: int, month: int) -> int
    decreases month,
{
    if month <= 1 {
        0
    } else {
        days_before_month(year, month - 1) + month_length(year, month - 1)
    }
}

/// The days from 1 January 1970 to a date.
pub open spec fn epoch_days(year: int, month: int, day: int) -> int {
    days_before_year(year) - days_before_year(1970) + days_before_month(year, month) + day - 1
}

/// The date after a date.
pub open spec fn next_date(year: int, month: int, day: int) -> (int, int, int) {
    if day < month_length(year, month) {
        (year, month, day + 1)
    } else if month < 12 {
        (year, month + 1, 1)
    } else {
        (year + 1, 1, 1)
    }
}

/// 1 January 1970 is day 0.
pub proof fn law_epoch_is_day_zero()
    ensures
        is_date(1970, 1, 1),
        epoch_days(1970, 1, 1) == 0,
{
}

/// The date after a date is a date, one day later, over the end of a month and
/// the end of a year too.
pub proof fn law_next_date_is_one_day_later(year: int, month: int, day: int)
    requires
        is_date(year, month, day),
    ensures
        ({
            let (y, m, d) = next_date(year, month, day);
            is_date(y, m, d) && epoch_days(y, m, d) == epoch_days(year, month, day) + 1
        }),
{
    if day == month_length(year, month) && month == 12 {
        lemma_year(year);
    }
}

/// April, June, September and November have 30 days, February has 28 or, every
/// fourth year but for three of the centuries in four, 29, and the other months
/// have 31: these are the days there are.
pub proof fn law_days_of_the_months(year: int, month: int, day: int)
    ensures
        month == 4 || month == 6 || month == 9 || month == 11 ==> (is_date(year, month, day)
            <==> 1 <= day <= 30),
        month == 1 || month == 3 || month == 5 || month == 7 || month == 8 || month == 10 || month
            == 12 ==> (is_date(year, month, day) <==> 1 <= day <= 31),
        is_date(year, 2, day) <==> 1 <= day <= 28 || (day == 29 && year % 4 == 0 && (year % 100 != 0
            || year % 400 == 0)),
        month < 1 || month > 12 ==> !is_date(year, month, day),
        is_date(year, month, day) ==> 1 <= day <= 31,
{
    lemma_multiples(year);
}

/// Every four hundred years have the same days.
pub proof fn law_calendar_repeats(year: int, month: int, day: int)
    ensures
        is_date(year + 400, month, day) == is_date(year, month, day),
        epoch_days(year + 400, month, day) == epoch_days(year, month, day) + 146_097,
{
    lemma_months_repeat(year, month);
    assert((year + 403) / 4 == (year + 3) / 4 + 100);
    assert((year + 499) / 100 == (year + 99) / 100 + 4);
    assert((year + 799) / 400 == (year + 399) / 400 + 1);
}

proof fn lemma_months_repeat(year: int, month: int)
    ensures
        days_before_month(year + 400, month) == days_before_month(year, month),
        month_length(year + 400, month) == month_length(year, month),
    decreases month,
{
    if month > 1 {
        lemma_months_repeat(year, month - 1);
    }
}

/// How the quotient by 4 goes from one year to the next.
proof fn lemma_fours(n: int)
    ensures
        n / 4 == (n - 1) / 4 + (if n % 4 == 0 {
            1int
        } else {
            0
        }),
        (n + 3) / 4 == (n - 1) / 4 + 1,
{
}

/// How the quotient by 100 goes from one year to the next.
proof fn lemma_hundreds(n: int)
    ensures
        n / 100 == (n - 1) / 100 + (if n % 100 == 0 {
            1int
        } else {
            0
        }),
        (n + 99) / 100 == (n - 1) / 100 + 1,
{
}

/// How the quotient by 400 goes from one year to the next.
proof fn lemma_four_hundreds(n: int)
    ensures
        n / 400 == (n - 1) / 400 + (if n % 400 == 0 {
            1int
        } else {
            0
        }),
        (n + 399) / 400 == (n - 1) / 400 + 1,
{
}

/// What 400 divides, 100 does, and what 100 divides, 4 does.
proof fn lemma_multiples(n: int)
    ensures
        n % 400 == 0 ==> n % 100 == 0,
        n % 100 == 0 ==> n % 4 == 0,
{
}

/// A year is as long as its months.
proof fn lemma_year(year: int)
    ensures
        days_before_year(year + 1) - days_before_year(year) == days_before_month(year, 12) + 31,
{
    lemma_months(year);
    lemma_fours(year);
    lemma_fours(year + 1);
    lemma_hundreds(year);
    lemma_hundreds(year + 1);
    lemma_four_hundreds(year);
    lemma_four_hundreds(year + 1);
    lemma_multiples(year);
}

proof fn lemma_months(year: int)
    ensures
        ({
            let leap = month_length(year, 2) - 28;
            &&& days_before_month(year, 1) == 0
            &&& days_before_month(year, 2) == 31
            &&& days_before_month(year, 3) == 59 + leap
            &&& days_before_month(year, 4) == 90 + leap
            &&& days_before_month(year, 5) == 120 + leap
            &&& days_before_month(year, 6) == 151 + leap
            &&& days_before_month(year, 7) == 181 + leap
            &&& days_before_month(year, 8) == 212 + leap
            &&& days_before_month(year, 9) == 243 + leap
            &&& days_before_month(year, 10) == 273 + leap
            &&& days_before_month(year, 11) == 304 + leap
            &&& days_before_month(year, 12) == 334 + leap
        }),
{
    reveal_with_fuel(days_before_month, 13);
}

/// A date of an `i64` year is fewer days from the epoch than `2^79`.
pub proof fn lemma_epoch_days_bound(year: int, month: int, day: int)
    requires
        i64::MIN <= year <= i64::MAX,
        is_date(year, month, day),
    ensures
        -0x8000_0000_0000_0000_0000 <= epoch_days(year, month, day)
            <= 0x8000_0000_0000_0000_0000,
{
    lemma_months(year);
}

/// Whether a year has a 29 February.
fn is_leap_year(year: i64) -> (b: bool)
    ensures
        b == is_leap(year as int),
{
    let fours: bool = year % 4 == 0;
    assert(fours == (year as int % 4 == 0));
    let hundreds: bool = year % 100 == 0;
    assert(hundreds == (year as int % 100 == 0));
    let four_hundreds: bool = year % 400 == 0;
    assert(four_hundreds == (year as int % 400 == 0));
    four_hundreds || (fours && !hundreds)
}

/// The number of days of a month.
pub fn days_in_month(year: i64, month: i64) -> (days: i64)
    requires
        1 <= month <= 12,
    ensures
        days == month_length(year as int, month as int),
{
    if month == 2 {
        if is_leap_year(year) {
            29
        } else {
            28
        }
    } else if month == 4 || month == 6 || month == 9 || month == 11 {
        30
    } else {
        31
    }
}

/// The days from 1 January 1970 to a date, by Howard Hinnant's
/// `days_from_civil`: the year runs from March, so the leap day is its last,
/// and 400 such years are an era of 146097 days.
pub fn days_from_civil(year: i64, month: i64, day: i64) -> (days: i128)
    requires
        is_date(year as int, month as int, day as int),
    ensures
        days == epoch_days(year as int, month as int, day as int),
{
    let jan_or_feb: bool = month <= 2;
    let y: i128 = if jan_or_feb {
        year as i128 - 1
    } else {
        year as i128
    };
    let era: i128 = (if y >= 0 {
        y
    } else {
        y - 399
    }) / 400;
    assert(era == y as int / 400);
    let year_of_era: i128 = y - era * 400;
    let month_from_march: i128 = if jan_or_feb {
        month as i128 + 9
    } else {
        month as i128 - 3
    };
    let day_of_year: i128 = (153 * month_from_march + 2) / 5 + day as i128 - 1;
    let day_of_era: i128 = year_of_era * 365 + year_of_era / 4 - year_of_era / 100 + day_of_year;
    proof {
        let yy = y as int;
        let e = era as int;
        let yoe = year_of_era as int;
        assert(0 <= yoe < 400);
        assert(yy / 4 == 100 * e + yoe / 4);
        assert(yy / 100 == 4 * e + yoe / 100);
        lemma_months(year as int);
        lemma_from_march(year as int, month as int, yy);
    }
    era * 146_097 + day_of_era - 719_468
}

/// The days before a month, counted from 1 March of year 0.
proof fn lemma_from_march(year: int, month: int, y: int)
    requires
        1 <= month <= 12,
        y == if month <= 2 {
            year - 1
        } else {
            year
        },
    ensures
        ({
            let m = if month <= 2 {
                month + 9
            } else {
                month - 3
            };
            365 * y + y / 4 - y / 100 + y / 400 + (153 * m + 2) / 5 - 719_468
                == days_before_year(year) - days_before_year(1970) + days_before_month(
                year,
                month,
            )
        }),
{
    lemma_months(year);
    lemma_fours(year);
    lemma_hundreds(year);
    lemma_four_hundreds(year);
    lemma_multiples(year);
}

}
