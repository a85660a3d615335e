use memguard::engine::calendar::{backup_timestamp, days_to_ymd, iso8601, today_date};

#[test]
fn the_epoch_is_the_first_of_january_1970() {
    assert_eq!(days_to_ymd(0), (1970, 1, 1));
    assert_eq!(today_date(0), "1970-01-01");
    assert_eq!(iso8601(0), "1970-01-01T00:00:00Z");
    assert_eq!(backup_timestamp(0), "19700101-000000");
}

#[test]
fn leap_days_are_counted() {
    assert_eq!(days_to_ymd(11_016), (2000, 2, 29));
    assert_eq!(days_to_ymd(11_017), (2000, 3, 1));
    assert_eq!(days_to_ymd(47_540), (2100, 2, 28));
    assert_eq!(days_to_ymd(47_541), (2100, 3, 1));
    assert_eq!(days_to_ymd(19_782), (2024, 2, 29));
}

#[test]
fn years_end_and_begin() {
    assert_eq!(days_to_ymd(364), (1970, 12, 31));
    assert_eq!(days_to_ymd(365), (1971, 1, 1));
    assert_eq!(days_to_ymd(20_648), (2026, 7, 14));
}

#[test]
fn times_are_split_into_their_parts() {
    let last = 1_784_159_999;
    assert_eq!(iso8601(last), "2026-07-15T23:59:59Z");
    assert_eq!(backup_timestamp(last), "20260715-235959");
    assert_eq!(today_date(last), "2026-07-15");
    assert_eq!(today_date(last + 1), "2026-07-16");
}

#[test]
fn far_days_have_long_years() {
    assert_eq!(days_to_ymd(2_932_896), (9999, 12, 31));
    assert_eq!(days_to_ymd(2_932_897), (10_000, 1, 1));
}

#[test]
fn days_before_the_epoch_have_dates() {
    assert_eq!(days_to_ymd(-1), (1969, 12, 31));
    assert_eq!(days_to_ymd(-365), (1969, 1, 1));
    assert_eq!(days_to_ymd(-719_162), (1, 1, 1));
    assert_eq!(days_to_ymd(-719_163), (0, 12, 31));
    assert_eq!(days_to_ymd(-719_468), (0, 3, 1));
    assert_eq!(days_to_ymd(-719_469), (0, 2, 29));
    assert_eq!(days_to_ymd(-719_529), (-1, 12, 31));
}
