use rustmatch::calendar::{civil_date_from_unix_days, utc_fields};

#[test]
fn the_epoch_is_the_first_of_january_1970() {
    assert_eq!(civil_date_from_unix_days(0), (1970, 1, 1));
}

#[test]
fn leap_days_and_days_before_the_epoch_are_dated() {
    assert_eq!(civil_date_from_unix_days(19_782), (2024, 2, 29));
    assert_eq!(civil_date_from_unix_days(-25_508), (1900, 3, 1));
    assert_eq!(civil_date_from_unix_days(-1), (1969, 12, 31));
}

#[test]
fn seconds_split_into_a_utc_date_and_clock_time() {
    assert_eq!(utc_fields(1_700_000_000), (2023, 11, 14, 22, 13, 20));
    assert_eq!(utc_fields(0), (1970, 1, 1, 0, 0, 0));
}
