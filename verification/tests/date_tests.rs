use backend_fight::date::{
    day_of_week_index, hour_of_day, parse_u16, parse_u8, to_total_minutes, whole_minutes_between,
};

#[test]
fn hour_is_read_from_the_timestamp() {
    assert_eq!(hour_of_day("2024-03-15T17:42:09Z"), 17);
    assert_eq!(hour_of_day("2024-03-15T00:00:00Z"), 0);
}

#[test]
fn weekday_of_known_dates() {
    // 2024-01-01 was a Monday, 2024-03-15 a Friday, 2023-12-31 a Sunday.
    assert_eq!(day_of_week_index("2024-01-01T10:00:00Z"), 0);
    assert_eq!(day_of_week_index("2024-03-15T10:00:00Z"), 4);
    assert_eq!(day_of_week_index("2023-12-31T10:00:00Z"), 6);
}

#[test]
fn minutes_between_timestamps() {
    assert_eq!(whole_minutes_between("2024-03-15T17:42:09Z", "2024-03-15T18:02:59Z"), 20);
    assert_eq!(whole_minutes_between("2024-02-28T23:59:00Z", "2024-03-01T00:01:00Z"), 1442);
    assert_eq!(whole_minutes_between("2024-03-15T18:00:00Z", "2024-03-15T17:00:00Z"), 0);
    assert_eq!(whole_minutes_between("2024-03-15T18:00:00Z", "2024-03-15T18:00:00Z"), 0);
}

#[test]
fn total_minutes_count_a_day_as_1440() {
    let a = to_total_minutes(b"2023-12-31T00:00:00Z");
    let b = to_total_minutes(b"2024-01-01T00:00:00Z");
    assert_eq!(b - a, 1440);
}

#[test]
fn fields_are_read_as_decimal_numbers() {
    assert_eq!(parse_u8(b"xx17", 2), 17);
    assert_eq!(parse_u8(b"09", 0), 9);
    assert_eq!(parse_u16(b"2024-", 0), 2024);
    assert_eq!(parse_u16(b"0007", 0), 7);
    // A byte past '9' still reads as its offset from '0'.
    assert_eq!(parse_u8(b":5", 0), 105);
}
