use pipeline::exif::{days_from_epoch, parse_datetime};

#[test]
fn parse_datetime_known() {
    // 2023-06-15 12:00:00 UTC — pre-calculated
    let ts = parse_datetime("2023:06:15 12:00:00").unwrap();
    // Days from 1970-01-01 to 2023-06-15 = 19523; * 86400 + 43200
    assert_eq!(ts, 19523 * 86400 + 12 * 3600);
}

#[test]
fn parse_datetime_invalid() {
    assert!(parse_datetime("bad string").is_none());
    assert!(parse_datetime("").is_none());
}

#[test]
fn surrounding_whitespace_and_trailing_text_are_ignored() {
    assert_eq!(parse_datetime("  1970:01:01 00:00:01\n"), Some(1));
    assert_eq!(parse_datetime("2000:03:01 00:00:00 +02:00"), Some(951868800));
}

#[test]
fn out_of_range_dates_are_rejected_but_times_are_not_checked() {
    assert_eq!(parse_datetime("2023:13:01 00:00:00"), None);
    assert_eq!(parse_datetime("2023:00:01 00:00:00"), None);
    assert_eq!(parse_datetime("2023:01:32 00:00:00"), None);
    assert_eq!(parse_datetime("2023:01:00 00:00:00"), None);
    // hours past 23 just count on
    assert_eq!(parse_datetime("1970:01:01 25:00:00"), Some(25 * 3600));
}

#[test]
fn signs_are_read_as_the_number_parsers_read_them() {
    assert_eq!(parse_datetime("+970:01:01 00:00:00"), Some(-365_242 * 86400));
    assert_eq!(parse_datetime("1970:+1:01 00:00:00"), Some(0));
    assert_eq!(parse_datetime("1970:-1:01 00:00:00"), None);
    assert_eq!(parse_datetime("197a:01:01 00:00:00"), None);
}

#[test]
fn days_from_epoch_follows_the_gregorian_calendar() {
    assert_eq!(days_from_epoch(1970, 1, 1), Some(0));
    assert_eq!(days_from_epoch(1969, 12, 31), Some(-1));
    assert_eq!(days_from_epoch(2000, 2, 29), Some(11016));
    assert_eq!(days_from_epoch(2000, 3, 1), Some(11017));
    assert_eq!(days_from_epoch(1900, 3, 1), Some(-25508));
    assert_eq!(days_from_epoch(2024, 3, 1), Some(19783));
    assert_eq!(days_from_epoch(0, 1, 1), Some(-719528));
    assert_eq!(days_from_epoch(2023, 2, 31), days_from_epoch(2023, 3, 3));
    assert_eq!(days_from_epoch(2023, 0, 1), None);
    assert_eq!(days_from_epoch(2023, 1, 0), None);
}
