//! Proleptic Gregorian dates and UTC clock fields for measurement receipts.
use vstd::prelude::*;

verus! {

/// Whether `year` is a leap year of the proleptic Gregorian calendar.
pub open spec fn is_leap_year(year: int) -> bool {
    year % 4 == 0 && (year % 100 != 0 || year % 400 == 0)
}

/// The number of days of `month` (1 to 12) in `year`.
pub open spec fn days_in_month(year: int, month: int) -> int {
    if month == 2 {
        if is_leap_year(year) {
            29
        } else {
            28
        }
    } else if month == 4 || month == 6 || month == 9 || month == 11 {
        30
    } else {
        31
    }
}

/// The day number of a date counted from 1970-01-01: whole 400-year eras
/// of 146097 days from 0000-03-01, then the days of the era before the
/// date, with the year taken to begin in March so that a leap day ends it.
pub open spec fn days_from_civil(year: int, month: int, day: int) -> int {
    let y = if month <= 2 {
        year - 1
    } else {
        year
    };
    let era = y / 400;
    let year_of_era = y - era * 400;
    let month_from_march = if month > 2 {
        month - 3
    } else {
        month + 9
    };
    let day_of_year = (153 * month_from_march + 2) / 5 + day - 1;
    let day_of_era = year_of_era * 365 + year_of_era / 4 - year_of_era / 100 + day_of_year;
    era * 146097 + day_of_era - 719_468
}

/// The year of an era, and the day of that year, that the date arithmetic
/// yields are in range; a 366th day falls only in a leap year.
proof fn lemma_era_year(day_of_era: u32)
    requires
        day_of_era <= 146096,
    ensures
        ({
            let yoe = (day_of_era - day_of_era / 1460 + day_of_era / 36524 - day_of_era / 146096) / 365;
            &&& day_of_era / 1460 <= day_of_era
            &&& yoe <= 399
            &&& 365 * yoe + yoe / 4 - yoe / 100 <= day_of_era
            &&& day_of_era - (365 * yoe + yoe / 4 - yoe / 100) <= 365
            &&& (day_of_era - (365 * yoe + yoe / 4 - yoe / 100) == 365 ==> yoe % 4 == 3 && (yoe % 100 != 99
                || yoe == 399))
        }),
{
    assert(day_of_era / 1460 <= day_of_era) by (bit_vector)
        requires
            day_of_era <= 146096u32,
    ;
    assert((day_of_era - day_of_era / 1460 + day_of_era / 36524 - day_of_era / 146096) / 365 <= 399) by (bit_vector)
        requires
            day_of_era <= 146096u32,
    ;
    assert({
        let yoe = (day_of_era - day_of_era / 1460 + day_of_era / 36524 - day_of_era / 146096) / 365;
        365 * yoe + yoe / 4 - yoe / 100 <= day_of_era
    }) by (bit_vector)
        requires
            day_of_era <= 146096u32,
    ;
    assert({
        let yoe = (day_of_era - day_of_era / 1460 + day_of_era / 36524 - day_of_era / 146096) / 365;
        day_of_era - (365 * yoe + yoe / 4 - yoe / 100) <= 365
    }) by (bit_vector)
        requires
            day_of_era <= 146096u32,
    ;
    assert({
        let yoe = (day_of_era - day_of_era / 1460 + day_of_era / 36524 - day_of_era / 146096) / 365;
        day_of_era - (365 * yoe + yoe / 4 - yoe / 100) == 365 ==> yoe % 4 == 3 && (yoe % 100 != 99 || yoe == 399)
    }) by (bit_vector)
        requires
            day_of_era <= 146096u32,
    ;
}

/// The month (counted from March) and the day of the month that the date
/// arithmetic yields from a day of the year are in range; a 29th day of the
/// last month (February) is the 366th day of the year.
proof fn lemma_year_day(doy: u32)
    requires
        doy <= 365,
    ensures
        ({
            let mp = (5 * doy + 2) / 153;
            let d = doy - (153 * mp + 2) / 5 + 1;
            &&& mp <= 11
            &&& (153 * mp + 2) / 5 <= doy
            &&& 1 <= d <= 31
            &&& (mp == 1 || mp == 3 || mp == 6 || mp == 8 ==> d <= 30)
            &&& (mp == 11 ==> d <= 29)
            &&& (mp == 11 && d == 29 ==> doy == 365)
        }),
{
    assert({
        let mp = (5 * doy + 2) / 153;
        let d = doy - (153 * mp + 2) / 5 + 1;
        &&& mp <= 11
        &&& (153 * mp + 2) / 5 <= doy
        &&& 1 <= d <= 31
        &&& (mp == 1 || mp == 3 || mp == 6 || mp == 8 ==> d <= 30)
        &&& (mp == 11 ==> d <= 29)
        &&& (mp == 11 && d == 29 ==> doy == 365)
    }) by (bit_vector)
        requires
            doy <= 365u32,
    ;
}

/// The proleptic Gregorian date `days` after 1970-01-01, as year, month
/// (1 to 12) and day of the month.
pub fn civil_date_from_unix_days(days: i64) -> (date: (i64, i64, i64))
    requires
        days <= i64::MAX - 719_468,
    ensures
        1 <= date.1 <= 12,
        1 <= date.2 <= days_in_month(date.0 as int, date.1 as int),
        days_from_civil(date.0 as int, date.1 as int, date.2 as int) == days,
{
    let shifted = days + 719_468;
    let era = shifted.checked_div_euclid(146_097).unwrap();
    proof {
        vstd::arithmetic::div_mod::lemma_fundamental_div_mod(shifted as int, 146_097);
        assert(0 <= (shifted as int) % 146_097 < 146_097);
    }
    let day_of_era = (shifted - era * 146_097) as u32;
    proof {
        lemma_era_year(day_of_era);
    }
    let year_of_era = (day_of_era - day_of_era / 1_460 + day_of_era / 36_524 - day_of_era / 146_096) / 365;
    let day_of_year = day_of_era - (365 * year_of_era + year_of_era / 4 - year_of_era / 100);
    proof {
        lemma_year_day(day_of_year);
    }
    let month_prime = (5 * day_of_year + 2) / 153;
    let day = day_of_year - (153 * month_prime + 2) / 5 + 1;
    let month: i64 = if month_prime < 10 {
        month_prime as i64 + 3
    } else {
        month_prime as i64 - 9
    };
    let year: i64 = year_of_era as i64 + era * 400 + if month <= 2 { 1 } else { 0 };
    proof {
        let y = year_of_era as int + era * 400;
        vstd::arithmetic::div_mod::lemma_fundamental_div_mod_converse(y, 400, era as int, year_of_era as int);
        if month == 2 && day == 29 {
            let leap = y + 1;
            assert(leap == 400 * era + (year_of_era + 1));
            vstd::arithmetic::div_mod::lemma_mod_multiples_vanish(100 * era, year_of_era + 1, 4);
            vstd::arithmetic::div_mod::lemma_mod_multiples_vanish(4 * era, year_of_era + 1, 100);
            vstd::arithmetic::div_mod::lemma_mod_multiples_vanish(era as int, year_of_era + 1, 400);
            assert(4 * (100 * era) == 400 * era);
            assert(100 * (4 * era) == 400 * era);
            assert(is_leap_year(leap));
        }
    }
    (year, month, day as i64)
}

/// Splits seconds since the Unix epoch into the UTC date and clock time:
/// year, month, day, hour, minute and second.
pub fn utc_fields(seconds: u64) -> (fields: (i64, i64, i64, u64, u64, u64))
    ensures
        1 <= fields.1 <= 12,
        1 <= fields.2 <= days_in_month(fields.0 as int, fields.1 as int),
        fields.3 < 24 && fields.4 < 60 && fields.5 < 60,
        days_from_civil(fields.0 as int, fields.1 as int, fields.2 as int) * 86_400 + fields.3 * 3_600 + fields.4
            * 60 + fields.5 == seconds,
{
    let days = seconds / 86_400;
    let seconds_of_day = seconds % 86_400;
    let hour = seconds_of_day / 3_600;
    let minute = seconds_of_day % 3_600 / 60;
    let second = seconds_of_day % 60;
    let (year, month, day) = civil_date_from_unix_days(days as i64);
    proof {
        assert(seconds_of_day == hour * 3_600 + minute * 60 + second) by (nonlinear_arith)
            requires
                seconds_of_day < 86_400,
                hour == seconds_of_day / 3_600,
                minute == seconds_of_day % 3_600 / 60,
                second == seconds_of_day % 60,
        ;
    }
    (year, month, day, hour, minute, second)
}

} // verus!
