use zusi_schlechtes_wetter::date::{is_leap_year, month_length, Datetime, OverflowError};
use zusi_schlechtes_wetter::date_text::ParseError;

fn at(year: u16, month: u8, day: u8, hour: u8, minute: u8, second: u8) -> Datetime {
    Datetime { year, month, day, hour, minute, second }
}

#[test]
fn inc_seconds_crosses_month_boundary() {
    let mut t = at(2024, 1, 31, 23, 59, 50);
    assert_eq!(t.inc_seconds(20), Ok(()));
    assert_eq!(t, at(2024, 2, 1, 0, 0, 10));
}

#[test]
fn inc_seconds_moves_to_next_day_without_saturating() {
    let mut t = at(2023, 5, 17, 23, 59, 30);
    assert_eq!(t.inc_seconds(60), Ok(()));
    assert_eq!(t, at(2023, 5, 18, 0, 0, 30));
}

#[test]
fn inc_seconds_within_the_minute() {
    let mut t = at(2023, 5, 17, 8, 15, 10);
    assert_eq!(t.inc_seconds(49), Ok(()));
    assert_eq!(t, at(2023, 5, 17, 8, 15, 59));
    assert_eq!(t.inc_seconds(1), Ok(()));
    assert_eq!(t, at(2023, 5, 17, 8, 16, 0));
}

#[test]
fn inc_seconds_by_zero_changes_nothing() {
    let mut t = at(2023, 5, 17, 8, 15, 10);
    assert_eq!(t.inc_seconds(0), Ok(()));
    assert_eq!(t, at(2023, 5, 17, 8, 15, 10));
}

#[test]
fn inc_seconds_carries_into_hours() {
    let mut t = at(2023, 5, 17, 8, 59, 59);
    assert_eq!(t.inc_seconds(3601), Ok(()));
    assert_eq!(t, at(2023, 5, 17, 10, 0, 0));
}

#[test]
fn inc_seconds_twice_equals_once_with_the_sum() {
    let starts = [
        at(2024, 1, 31, 23, 59, 50),
        at(1999, 12, 31, 23, 59, 59),
        at(2024, 2, 28, 12, 0, 0),
        at(0, 1, 1, 0, 0, 0),
    ];
    let steps: [(u32, u32); 5] = [(0, 0), (1, 1), (20, 86_400), (59, 3_541), (1_000_000, 2_000_000)];
    for start in starts {
        for (a, b) in steps {
            let mut twice = start;
            assert_eq!(twice.inc_seconds(a), Ok(()));
            assert_eq!(twice.inc_seconds(b), Ok(()));
            let mut once = start;
            assert_eq!(once.inc_seconds(a + b), Ok(()));
            assert_eq!(twice, once);
        }
    }
}

#[test]
fn inc_seconds_knows_leap_years() {
    let mut leap = at(2024, 2, 28, 23, 59, 59);
    assert_eq!(leap.inc_seconds(1), Ok(()));
    assert_eq!(leap, at(2024, 2, 29, 0, 0, 0));

    let mut common = at(2023, 2, 28, 23, 59, 59);
    assert_eq!(common.inc_seconds(1), Ok(()));
    assert_eq!(common, at(2023, 3, 1, 0, 0, 0));

    let mut century = at(1900, 2, 28, 23, 59, 59);
    assert_eq!(century.inc_seconds(1), Ok(()));
    assert_eq!(century, at(1900, 3, 1, 0, 0, 0));

    let mut fourth_century = at(2000, 2, 28, 23, 59, 59);
    assert_eq!(fourth_century.inc_seconds(1), Ok(()));
    assert_eq!(fourth_century, at(2000, 2, 29, 0, 0, 0));
}

#[test]
fn inc_seconds_crosses_year_boundary() {
    let mut t = at(2023, 12, 31, 23, 59, 59);
    assert_eq!(t.inc_seconds(1), Ok(()));
    assert_eq!(t, at(2024, 1, 1, 0, 0, 0));
}

#[test]
fn inc_seconds_by_the_largest_step() {
    let mut t = at(2000, 1, 1, 0, 0, 0);
    assert_eq!(t.inc_seconds(u32::MAX), Ok(()));
    assert_eq!(t, at(2136, 2, 7, 6, 28, 15));
}

#[test]
fn inc_seconds_fails_past_the_last_year() {
    let mut t = at(65535, 12, 31, 23, 59, 59);
    assert_eq!(t.inc_seconds(1), Err(OverflowError));
    assert_eq!(t, at(65535, 12, 31, 23, 59, 59));

    let mut far = at(65500, 6, 1, 0, 0, 0);
    assert_eq!(far.inc_seconds(u32::MAX), Err(OverflowError));
    assert_eq!(far, at(65500, 6, 1, 0, 0, 0));

    let mut last = at(65535, 12, 31, 23, 59, 58);
    assert_eq!(last.inc_seconds(1), Ok(()));
    assert_eq!(last, at(65535, 12, 31, 23, 59, 59));
}

#[test]
fn seconds_since_counts_whole_seconds() {
    let later = at(2024, 3, 1, 0, 0, 0);
    let earlier = at(2023, 12, 31, 23, 59, 59);
    assert_eq!(later.seconds_since(&earlier), 5_184_001);
    assert_eq!(earlier.seconds_since(&later), -5_184_001);
    assert_eq!(later.seconds_since(&later), 0);
}

#[test]
fn seconds_since_undoes_inc_seconds() {
    let start = at(2024, 1, 31, 23, 59, 50);
    let mut moved = start;
    assert_eq!(moved.inc_seconds(123_456_789), Ok(()));
    assert_eq!(moved.seconds_since(&start), 123_456_789);
}

#[test]
fn seconds_since_the_first_moment() {
    let origin = at(0, 1, 1, 0, 0, 0);
    assert_eq!(at(1970, 1, 1, 0, 0, 0).seconds_since(&origin), 62_167_219_200);
    assert_eq!(at(2024, 2, 29, 12, 0, 0).seconds_since(&at(1970, 1, 1, 0, 0, 0)), 1_709_208_000);
}

#[test]
fn to_string_pads_with_zeros() {
    assert_eq!(at(2024, 2, 1, 0, 0, 10).to_string(), "2024-02-01 00:00:10");
    assert_eq!(at(5, 1, 2, 3, 4, 5).to_string(), "0005-01-02 03:04:05");
    assert_eq!(at(0, 0, 0, 0, 0, 0).to_string(), "0000-00-00 00:00:00");
    assert_eq!(at(123, 12, 31, 23, 59, 59).to_string(), "0123-12-31 23:59:59");
}

#[test]
fn to_string_keeps_numbers_wider_than_their_place() {
    assert_eq!(at(65535, 12, 31, 23, 59, 59).to_string(), "65535-12-31 23:59:59");
    assert_eq!(at(10000, 255, 100, 99, 200, 101).to_string(), "10000-255-100 99:200:101");
}

#[test]
fn from_str_reads_the_layout() {
    assert_eq!(Datetime::from_str("2024-01-31 23:59:50"), Ok(at(2024, 1, 31, 23, 59, 50)));
    assert_eq!(Datetime::from_str("0000-01-01 00:00:00"), Ok(at(0, 1, 1, 0, 0, 0)));
    assert_eq!(Datetime::from_str("65535-12-31 23:59:59"), Ok(at(65535, 12, 31, 23, 59, 59)));
}

#[test]
fn from_str_takes_short_long_and_signed_fields() {
    assert_eq!(Datetime::from_str("2024-1-5 3:4:5"), Ok(at(2024, 1, 5, 3, 4, 5)));
    assert_eq!(Datetime::from_str("+2024-+01-005 0003:04:05"), Ok(at(2024, 1, 5, 3, 4, 5)));
    assert_eq!(Datetime::from_str("000000002024-01-05 03:04:05"), Ok(at(2024, 1, 5, 3, 4, 5)));
}

#[test]
fn from_str_rejects_fields_outside_the_calendar() {
    assert_eq!(Datetime::from_str("2024-13-01 00:00:00"), Err(ParseError::Number));
    assert_eq!(Datetime::from_str("2024-00-01 00:00:00"), Err(ParseError::Number));
    assert_eq!(Datetime::from_str("2024-01-00 00:00:00"), Err(ParseError::Number));
    assert_eq!(Datetime::from_str("2024-01-32 00:00:00"), Err(ParseError::Number));
    assert_eq!(Datetime::from_str("2024-04-31 00:00:00"), Err(ParseError::Number));
    assert_eq!(Datetime::from_str("2023-02-29 00:00:00"), Err(ParseError::Number));
    assert_eq!(Datetime::from_str("1900-02-29 00:00:00"), Err(ParseError::Number));
    assert_eq!(Datetime::from_str("2024-01-31 24:00:00"), Err(ParseError::Number));
    assert_eq!(Datetime::from_str("2024-01-31 23:60:00"), Err(ParseError::Number));
    assert_eq!(Datetime::from_str("2024-01-31 23:59:60"), Err(ParseError::Number));
    assert_eq!(Datetime::from_str("2024-13-40 25:61:99"), Err(ParseError::Number));
}

#[test]
fn from_str_takes_every_day_of_the_calendar() {
    assert_eq!(Datetime::from_str("2024-02-29 23:59:59"), Ok(at(2024, 2, 29, 23, 59, 59)));
    assert_eq!(Datetime::from_str("2000-02-29 00:00:00"), Ok(at(2000, 2, 29, 0, 0, 0)));
    assert_eq!(Datetime::from_str("2023-02-28 00:00:00"), Ok(at(2023, 2, 28, 0, 0, 0)));
    assert_eq!(Datetime::from_str("2024-12-31 23:59:59"), Ok(at(2024, 12, 31, 23, 59, 59)));
    assert_eq!(Datetime::from_str("2024-04-30 00:00:00"), Ok(at(2024, 4, 30, 0, 0, 0)));
}

#[test]
fn from_str_gives_values_that_inc_seconds_takes() {
    let mut read = Datetime::from_str("2024-01-31 23:59:50").unwrap();
    assert!(read.is_valid());
    assert_eq!(read.inc_seconds(20), Ok(()));
    assert_eq!(read.to_string(), "2024-02-01 00:00:10");
}

#[test]
fn parse_reads_as_from_str_does() {
    assert_eq!("2024-01-31 23:59:50".parse::<Datetime>(), Ok(at(2024, 1, 31, 23, 59, 50)));
    assert_eq!("2024-13-01 00:00:00".parse::<Datetime>(), Err(ParseError::Number));
    assert_eq!("2024-01-31".parse::<Datetime>(), Err(ParseError::Layout));
    assert_eq!("2024-01 23:59:50".parse::<Datetime>(), Err(ParseError::Date));
    assert_eq!("2024-01-31 23:59".parse::<Datetime>(), Err(ParseError::Time));
}

#[test]
fn from_str_rejects_a_wrong_number_of_parts() {
    assert_eq!(Datetime::from_str(""), Err(ParseError::Layout));
    assert_eq!(Datetime::from_str("2024-01-31"), Err(ParseError::Layout));
    assert_eq!(Datetime::from_str("2024-01-31T23:59:50"), Err(ParseError::Layout));
    assert_eq!(Datetime::from_str("2024-01-31  23:59:50"), Err(ParseError::Layout));
    assert_eq!(Datetime::from_str(" 2024-01-31 23:59:50"), Err(ParseError::Layout));
    assert_eq!(Datetime::from_str("2024-01-31 23:59:50 "), Err(ParseError::Layout));
}

#[test]
fn from_str_rejects_a_wrong_number_of_date_fields() {
    assert_eq!(Datetime::from_str("2024-01 23:59:50"), Err(ParseError::Date));
    assert_eq!(Datetime::from_str("2024-01-31-05 23:59:50"), Err(ParseError::Date));
    assert_eq!(Datetime::from_str("20240131 23:59:50"), Err(ParseError::Date));
    assert_eq!(Datetime::from_str(" 23:59:50"), Err(ParseError::Date));
}

#[test]
fn from_str_rejects_a_wrong_number_of_time_fields() {
    assert_eq!(Datetime::from_str("2024-01-31 23:59"), Err(ParseError::Time));
    assert_eq!(Datetime::from_str("2024-01-31 23:59:50:01"), Err(ParseError::Time));
    assert_eq!(Datetime::from_str("2024-01-31 235950"), Err(ParseError::Time));
    assert_eq!(Datetime::from_str("2024-01-31 "), Err(ParseError::Time));
}

#[test]
fn from_str_rejects_fields_that_are_no_numbers() {
    assert_eq!(Datetime::from_str("year-01-31 23:59:50"), Err(ParseError::Number));
    assert_eq!(Datetime::from_str("2024--31 23:59:50"), Err(ParseError::Number));
    assert_eq!(Datetime::from_str("2024-01-31 23:59:5x"), Err(ParseError::Number));
    assert_eq!(Datetime::from_str("2024-01-31 23::50"), Err(ParseError::Number));
    assert_eq!(Datetime::from_str("2024-01-+ 23:59:50"), Err(ParseError::Number));
    assert_eq!(Datetime::from_str("2024-01-3+1 23:59:50"), Err(ParseError::Number));
    assert_eq!(Datetime::from_str("2024-01-31 23:59:５０"), Err(ParseError::Number));
}

#[test]
fn from_str_rejects_fields_too_large_for_their_place() {
    assert_eq!(Datetime::from_str("65536-01-31 23:59:50"), Err(ParseError::Number));
    assert_eq!(Datetime::from_str("2024-256-31 23:59:50"), Err(ParseError::Number));
    assert_eq!(Datetime::from_str("2024-01-31 23:59:256"), Err(ParseError::Number));
    assert_eq!(Datetime::from_str("2024-01-31 23:59:99999999999999999999"), Err(ParseError::Number));
    assert_eq!(Datetime::from_str("2024-01-31 23:59:255"), Err(ParseError::Number));
    assert_eq!(Datetime::from_str("65535-12-31 23:59:59"), Ok(at(65535, 12, 31, 23, 59, 59)));
}

#[test]
fn from_str_reports_a_bad_date_number_before_a_bad_time_layout() {
    assert_eq!(Datetime::from_str("x-01-31 23:59"), Err(ParseError::Number));
    assert_eq!(Datetime::from_str("2024-01 23:59"), Err(ParseError::Date));
}

#[test]
fn from_str_reads_back_what_to_string_wrote() {
    let values = [
        at(2024, 1, 31, 23, 59, 50),
        at(0, 1, 1, 0, 0, 0),
        at(65535, 12, 31, 23, 59, 59),
        at(9, 9, 9, 9, 9, 9),
        at(10000, 10, 10, 10, 10, 10),
        at(2024, 2, 29, 12, 0, 0),
    ];
    for value in values {
        assert!(value.is_valid());
        assert_eq!(Datetime::from_str(&value.to_string()), Ok(value));
    }
}

#[test]
fn is_valid_holds_values_to_the_calendar() {
    assert!(at(2024, 2, 29, 23, 59, 59).is_valid());
    assert!(!at(2023, 2, 29, 0, 0, 0).is_valid());
    assert!(!at(2024, 0, 1, 0, 0, 0).is_valid());
    assert!(!at(2024, 13, 1, 0, 0, 0).is_valid());
    assert!(!at(2024, 1, 0, 0, 0, 0).is_valid());
    assert!(!at(2024, 4, 31, 0, 0, 0).is_valid());
    assert!(!at(2024, 1, 1, 24, 0, 0).is_valid());
    assert!(!at(2024, 1, 1, 0, 60, 0).is_valid());
    assert!(!at(2024, 1, 1, 0, 0, 60).is_valid());
    assert!(at(0, 1, 1, 0, 0, 0).is_valid());
    assert!(!Datetime::default().is_valid());
}

#[test]
fn month_length_follows_the_calendar() {
    let lengths: Vec<u8> = (1..=12).map(|month| month_length(2023, month)).collect();
    assert_eq!(lengths, vec![31, 28, 31, 30, 31, 30, 31, 31, 30, 31, 30, 31]);
    assert_eq!(month_length(2024, 2), 29);
    assert_eq!(month_length(2024, 0), 0);
    assert_eq!(month_length(2024, 13), 0);
}

#[test]
fn is_leap_year_follows_the_three_rules() {
    assert!(is_leap_year(2024));
    assert!(!is_leap_year(2023));
    assert!(!is_leap_year(1900));
    assert!(is_leap_year(2000));
    assert!(is_leap_year(0));
}

#[test]
fn datetimes_order_by_their_fields() {
    assert!(at(2024, 1, 31, 23, 59, 50) < at(2024, 2, 1, 0, 0, 10));
    assert!(at(2024, 1, 31, 23, 59, 50) > at(2023, 12, 31, 23, 59, 59));
    assert_eq!(Datetime::default(), at(0, 0, 0, 0, 0, 0));
}
