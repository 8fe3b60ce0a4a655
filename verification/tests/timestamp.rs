use stocks::timestamp::Timestamp;
use time::{Date, Month, OffsetDateTime, Time, UtcOffset};

fn nanos(year: i32, month: Month, day: u8, hour: u8) -> i128 {
    Date::from_calendar_date(year, month, day)
        .unwrap()
        .with_time(Time::from_hms(hour, 0, 0).unwrap())
        .assume_utc()
        .unix_timestamp_nanos()
}

#[test]
fn timestamp_reads_the_calendar() {
    let moment = Timestamp::new(nanos(2024, Month::March, 15, 12), 0).unwrap();
    assert_eq!(moment.year(), 2024);
    assert_eq!(moment.month(), 3);
    assert_eq!(moment.unix_nanos(), nanos(2024, Month::March, 15, 12));
    assert_eq!(moment.offset_seconds(), 0);
}

#[test]
fn timestamp_of_the_epoch() {
    let epoch = Timestamp::new(0, 0).unwrap();
    assert_eq!(epoch.year(), 1970);
    assert_eq!(epoch.month(), 1);
}

#[test]
fn timestamp_reads_the_date_at_its_offset() {
    let instant = nanos(2019, Month::December, 31, 23);
    let utc = Timestamp::new(instant, 0).unwrap();
    let east = Timestamp::new(instant, 3600).unwrap();
    assert_eq!((utc.year(), utc.month()), (2019, 12));
    assert_eq!((east.year(), east.month()), (2020, 1));
    // The same instant, whatever the offset: neither comes before the other.
    assert!(!utc.is_before(&east));
    assert!(!east.is_before(&utc));
}

#[test]
fn timestamp_agrees_with_time() {
    let offset = UtcOffset::from_hms(-3, 0, 0).unwrap();
    let moment = OffsetDateTime::from_unix_timestamp(1_700_000_000).unwrap().to_offset(offset);
    let made = Timestamp::new(moment.unix_timestamp_nanos(), offset.whole_seconds()).unwrap();
    assert_eq!(made.year(), moment.year());
    assert_eq!(made.month(), moment.month() as u8);
}

#[test]
fn timestamp_refuses_what_the_calendar_lacks() {
    assert_eq!(Timestamp::new(i128::MAX, 0), None);
    assert_eq!(Timestamp::new(i128::MIN, 0), None);
    assert_eq!(Timestamp::new(0, 200_000), None);
    assert_eq!(Timestamp::new(0, -200_000), None);
}

#[test]
fn timestamps_are_ordered_by_instant() {
    let early = Timestamp::new(nanos(2024, Month::January, 1, 0), 0).unwrap();
    let late = Timestamp::new(nanos(2024, Month::January, 1, 1), 0).unwrap();
    assert!(early.is_before(&late));
    assert!(!late.is_before(&early));
    assert!(!early.is_before(&early));
}

#[test]
fn timestamp_from_a_given_reading() {
    let made = Timestamp::from_calendar(1_700_000_000_000_000_000, -10_800, 2023, 11).unwrap();
    assert_eq!(made.unix_nanos(), 1_700_000_000_000_000_000);
    assert_eq!(made.offset_seconds(), -10_800);
    assert_eq!(made.year(), 2023);
    assert_eq!(made.month(), 11);
    // What `new` reads from the calendar is this reading.
    assert_eq!(Timestamp::new(1_700_000_000_000_000_000, -10_800), Some(made));
    assert_eq!(Timestamp::from_calendar(0, 0, 1970, 0), None);
    assert_eq!(Timestamp::from_calendar(0, 0, 1970, 13), None);
    assert!(Timestamp::from_calendar(0, 0, 1970, 1).is_some());
    assert!(Timestamp::from_calendar(0, 0, 1970, 12).is_some());
}
