use excretor::error::TummyError;
use excretor::timestamp::{from_pg_ts, human_format, Timestamp};

fn at(year: i32, month: u32, day: u32, hour: u32, minute: u32, second: u32) -> Timestamp {
    Timestamp::new(year, month, day, hour, minute, second, 0).unwrap()
}

#[test]
fn human_format_shows_day_month_year_and_twelve_hour_clock() {
    assert_eq!(human_format(&at(2015, 9, 5, 23, 56, 4)), "05 Sep 2015 @ 11:56 PM");
    assert_eq!(human_format(&at(2024, 1, 1, 10, 0, 0)), "01 Jan 2024 @ 10:00 AM");
}

#[test]
fn human_format_midnight_and_noon_read_twelve() {
    assert_eq!(human_format(&at(2024, 1, 1, 0, 5, 0)), "01 Jan 2024 @ 12:05 AM");
    assert_eq!(human_format(&at(2024, 1, 1, 12, 0, 0)), "01 Jan 2024 @ 12:00 PM");
    assert_eq!(human_format(&at(2024, 12, 31, 13, 9, 59)), "31 Dec 2024 @ 01:09 PM");
}

#[test]
fn human_format_names_every_month() {
    let names = [
        "Jan", "Feb", "Mar", "Apr", "May", "Jun", "Jul", "Aug", "Sep", "Oct", "Nov", "Dec",
    ];
    let mut month = 1;
    while month <= 12 {
        let expected = format!("07 {} 1999 @ 03:04 AM", names[(month - 1) as usize]);
        assert_eq!(human_format(&at(1999, month, 7, 3, 4, 5)), expected);
        month += 1;
    }
}

#[test]
fn human_format_pads_and_signs_unusual_years() {
    assert_eq!(human_format(&at(999, 3, 2, 1, 0, 0)), "02 Mar 0999 @ 01:00 AM");
    assert_eq!(human_format(&at(0, 3, 2, 1, 0, 0)), "02 Mar 0000 @ 01:00 AM");
    assert_eq!(human_format(&at(9999, 3, 2, 1, 0, 0)), "02 Mar 9999 @ 01:00 AM");
    assert_eq!(human_format(&at(10000, 3, 2, 1, 0, 0)), "02 Mar +10000 @ 01:00 AM");
    assert_eq!(human_format(&at(262142, 3, 2, 1, 0, 0)), "02 Mar +262142 @ 01:00 AM");
    assert_eq!(human_format(&at(-1, 3, 2, 1, 0, 0)), "02 Mar -0001 @ 01:00 AM");
    assert_eq!(human_format(&at(-12345, 3, 2, 1, 0, 0)), "02 Mar -12345 @ 01:00 AM");
    assert_eq!(human_format(&at(-999, 3, 2, 1, 0, 0)), "02 Mar -0999 @ 01:00 AM");
    assert_eq!(human_format(&at(-262143, 1, 1, 0, 0, 0)), "01 Jan -262143 @ 12:00 AM");
}

#[test]
fn human_format_ignores_seconds_and_fraction() {
    let plain = at(2024, 6, 30, 23, 59, 0);
    let later = Timestamp::new(2024, 6, 30, 23, 59, 59, 999_999_999).unwrap();
    let leap = Timestamp::new(2024, 6, 30, 23, 59, 59, 1_500_000_000).unwrap();
    assert_eq!(human_format(&plain), "30 Jun 2024 @ 11:59 PM");
    assert_eq!(human_format(&later), human_format(&plain));
    assert_eq!(human_format(&leap), human_format(&plain));
}

#[test]
fn human_format_agrees_with_its_description_on_a_sweep() {
    let names = [
        "Jan", "Feb", "Mar", "Apr", "May", "Jun", "Jul", "Aug", "Sep", "Oct", "Nov", "Dec",
    ];
    let years = [1, 12, 123, 1970, 2000, 2024, 9999];
    for year in years {
        let mut month = 1;
        while month <= 12 {
            let mut hour = 0;
            while hour < 24 {
                let minute = (hour * 7 + month) % 60;
                let day = 1 + (hour + month) % 28;
                let clock = if hour % 12 == 0 { 12 } else { hour % 12 };
                let half = if hour < 12 { "AM" } else { "PM" };
                let expected = format!(
                    "{:02} {} {:04} @ {:02}:{:02} {}",
                    day,
                    names[(month - 1) as usize],
                    year,
                    clock,
                    minute,
                    half
                );
                assert_eq!(human_format(&at(year, month, day, hour, minute, 30)), expected);
                hour += 1;
            }
            month += 1;
        }
    }
}

#[test]
fn from_pg_ts_reads_the_store_notation() {
    let read = from_pg_ts("2024-01-01 10:00:00").unwrap();
    assert_eq!(read, at(2024, 1, 1, 10, 0, 0));
    assert_eq!(read.year(), 2024);
    assert_eq!(read.month(), 1);
    assert_eq!(read.day(), 1);
    assert_eq!(read.hour(), 10);
    assert_eq!(read.minute(), 0);
    assert_eq!(read.second(), 0);
    assert_eq!(read.nanos(), 0);
}

#[test]
fn from_pg_ts_reads_a_fraction_of_a_second() {
    let read = from_pg_ts("2023-11-05 07:08:09.123456").unwrap();
    assert_eq!(read, Timestamp::new(2023, 11, 5, 7, 8, 9, 123_456_000).unwrap());
    let short = from_pg_ts("2023-11-05 07:08:09.5").unwrap();
    assert_eq!(short.nanos(), 500_000_000);
}

#[test]
fn from_pg_ts_rejects_what_is_no_timestamp() {
    assert_eq!(from_pg_ts(""), Err(TummyError::MalformedTimestamp));
    assert_eq!(from_pg_ts("yesterday"), Err(TummyError::MalformedTimestamp));
    assert_eq!(from_pg_ts("2024-01-01"), Err(TummyError::MalformedTimestamp));
    assert_eq!(from_pg_ts("2024-02-30 10:00:00"), Err(TummyError::MalformedTimestamp));
    assert_eq!(from_pg_ts("2024-01-01 25:00:00"), Err(TummyError::MalformedTimestamp));
    assert_eq!(from_pg_ts("2024-01-01 10:00:00 trailing"), Err(TummyError::MalformedTimestamp));
}

#[test]
fn reading_then_displaying_is_stable() {
    let first = human_format(&from_pg_ts("2024-01-01 10:00:00").unwrap());
    let again = human_format(&from_pg_ts("2024-01-01 10:00:00").unwrap());
    let same_minute = human_format(&from_pg_ts("2024-01-01 10:00:59.999").unwrap());
    assert_eq!(first, "01 Jan 2024 @ 10:00 AM");
    assert_eq!(first, again);
    assert_eq!(first, same_minute);
}

#[test]
fn new_accepts_only_days_that_exist() {
    assert!(Timestamp::new(2024, 2, 29, 0, 0, 0, 0).is_some());
    assert!(Timestamp::new(2023, 2, 29, 0, 0, 0, 0).is_none());
    assert!(Timestamp::new(2000, 2, 29, 0, 0, 0, 0).is_some());
    assert!(Timestamp::new(1900, 2, 29, 0, 0, 0, 0).is_none());
    assert!(Timestamp::new(-4, 2, 29, 0, 0, 0, 0).is_some());
    assert!(Timestamp::new(2024, 4, 31, 0, 0, 0, 0).is_none());
    assert!(Timestamp::new(2024, 4, 30, 0, 0, 0, 0).is_some());
    assert!(Timestamp::new(2024, 0, 1, 0, 0, 0, 0).is_none());
    assert!(Timestamp::new(2024, 13, 1, 0, 0, 0, 0).is_none());
    assert!(Timestamp::new(2024, 1, 0, 0, 0, 0, 0).is_none());
    assert!(Timestamp::new(2024, 1, 32, 0, 0, 0, 0).is_none());
}

#[test]
fn new_accepts_only_times_of_day() {
    assert!(Timestamp::new(2024, 1, 1, 23, 59, 59, 999_999_999).is_some());
    assert!(Timestamp::new(2024, 1, 1, 24, 0, 0, 0).is_none());
    assert!(Timestamp::new(2024, 1, 1, 0, 60, 0, 0).is_none());
    assert!(Timestamp::new(2024, 1, 1, 0, 0, 60, 0).is_none());
    assert!(Timestamp::new(2024, 1, 1, 0, 0, 59, 1_999_999_999).is_some());
    assert!(Timestamp::new(2024, 1, 1, 0, 0, 58, 1_000_000_000).is_none());
    assert!(Timestamp::new(2024, 1, 1, 0, 0, 59, 2_000_000_000).is_none());
}

#[test]
fn new_keeps_to_the_range_of_years() {
    assert!(Timestamp::new(262_142, 12, 31, 0, 0, 0, 0).is_some());
    assert!(Timestamp::new(262_143, 1, 1, 0, 0, 0, 0).is_none());
    assert!(Timestamp::new(-262_143, 1, 1, 0, 0, 0, 0).is_some());
    assert!(Timestamp::new(-262_144, 12, 31, 0, 0, 0, 0).is_none());
}

#[test]
fn timestamps_order_as_the_calendar_does() {
    let a = at(2023, 12, 31, 23, 59, 59);
    let b = at(2024, 1, 1, 0, 0, 0);
    let c = Timestamp::new(2024, 1, 1, 0, 0, 0, 1).unwrap();
    assert!(a.is_before(&b));
    assert!(b.is_before(&c));
    assert!(a.is_before(&c));
    assert!(!b.is_before(&a));
    assert!(!b.is_before(&b));
    assert!(b.same_as(&at(2024, 1, 1, 0, 0, 0)));
    assert!(!b.same_as(&c));
    assert!(a.instant() < b.instant());
}
