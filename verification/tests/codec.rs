use chrono::{Datelike, Timelike};
use meetings::calendar::{Date, Timestamp};
use meetings::record::{assemble, encode, parse_meeting, Meeting};
use meetings::text::{digit_count, push_all, push_decimal, push_padded, read_number};

fn meeting(year: i32, month: u32, day: u32, hour: u32, minute: u32, second: u32, length: u32) -> Meeting {
    Meeting { timestamp: Timestamp::new(year, month, day, hour, minute, second).unwrap(), length }
}

#[test]
fn encode_writes_the_stored_line() {
    let line = encode(&meeting(2018, 12, 31, 18, 0, 0, 60));
    assert_eq!(line, b"{\"timestamp\":\"2018-12-31T18:00:00Z\",\"length\":60}".to_vec());
}

#[test]
fn encode_pads_small_fields() {
    let line = encode(&meeting(7, 1, 2, 3, 4, 5, 0));
    assert_eq!(line, b"{\"timestamp\":\"0007-01-02T03:04:05Z\",\"length\":0}".to_vec());
}

#[test]
fn encode_writes_the_largest_length() {
    let line = encode(&meeting(9999, 12, 31, 23, 59, 59, u32::MAX));
    assert_eq!(line, b"{\"timestamp\":\"9999-12-31T23:59:59Z\",\"length\":4294967295}".to_vec());
}

#[test]
fn decode_reads_the_stored_line() {
    let read = parse_meeting(b"{\"timestamp\":\"2018-12-31T18:00:00Z\",\"length\":60}");
    assert_eq!(read, Some(meeting(2018, 12, 31, 18, 0, 0, 60)));
}

#[test]
fn decode_of_encode_gives_the_record_back() {
    let records = vec![
        meeting(2018, 12, 31, 18, 0, 0, 60),
        meeting(0, 1, 1, 0, 0, 0, 0),
        meeting(2020, 2, 29, 23, 59, 59, 1),
        meeting(9999, 12, 31, 23, 59, 59, u32::MAX),
        meeting(1970, 1, 1, 0, 0, 1, 1000000000),
    ];
    for record in records {
        let read = parse_meeting(&encode(&record)).unwrap();
        assert_eq!(read.timestamp, record.timestamp);
        assert_eq!(read.length, record.length);
    }
}

#[test]
fn decode_passes_over_garbage() {
    assert_eq!(parse_meeting(b"garbage"), None);
    assert_eq!(parse_meeting(b""), None);
    assert_eq!(parse_meeting(b"{}"), None);
    assert_eq!(parse_meeting(b"{\"timestamp\":\"2018-12-31T18:00:00Z\",\"length\":}"), None);
    assert_eq!(parse_meeting(b"{\"timestamp\":\"2018-12-31T18:00:00Z\",\"length\":60"), None);
    assert_eq!(parse_meeting(b"{\"timestamp\":\"2018-12-31T18:00:00Z\",\"length\":-1}"), None);
    assert_eq!(parse_meeting(b"{\"timestamp\":\"2018-12-31T18:00:00Z\",\"length\":60.5}"), None);
    assert_eq!(parse_meeting(b"{\"timestamp\":\"2018-12-31T18:00:00Z\",\"length\":\"60\"}"), None);
    assert_eq!(parse_meeting(b"{\"timestamp\":20181231,\"length\":60}"), None);
    assert_eq!(parse_meeting(b"{\"timestamp\":\"yesterday\",\"length\":60}"), None);
    assert_eq!(parse_meeting(b"{\"timestamp\":\"2018-12-31T18:00:00Z\"}"), None);
    assert_eq!(parse_meeting(b"{\"length\":60}"), None);
    assert_eq!(parse_meeting(b"null"), None);
    assert_eq!(parse_meeting(b"60"), None);
    assert_eq!(parse_meeting(b"\xff\xfe"), None);
    assert_eq!(parse_meeting(b"{\"timestamp\":\"2018-12-31T18:00:00Z\",\"lenght\":60}"), None);
}

#[test]
fn decode_passes_over_a_length_with_zeros_in_front() {
    assert_eq!(parse_meeting(b"{\"timestamp\":\"2018-12-31T18:00:00Z\",\"length\":060}"), None);
}

#[test]
fn decode_passes_over_a_length_that_does_not_fit() {
    assert_eq!(
        parse_meeting(b"{\"timestamp\":\"2018-12-31T18:00:00Z\",\"length\":4294967296}"),
        None
    );
    assert_eq!(
        parse_meeting(b"{\"timestamp\":\"2018-12-31T18:00:00Z\",\"length\":99999999999999999999999}"),
        None
    );
}

#[test]
fn decode_passes_over_a_day_that_the_calendar_lacks() {
    assert_eq!(parse_meeting(b"{\"timestamp\":\"2019-02-29T18:00:00Z\",\"length\":60}"), None);
    assert_eq!(parse_meeting(b"{\"timestamp\":\"2018-04-31T18:00:00Z\",\"length\":60}"), None);
    assert_eq!(parse_meeting(b"{\"timestamp\":\"2018-13-01T18:00:00Z\",\"length\":60}"), None);
    assert_eq!(parse_meeting(b"{\"timestamp\":\"2018-00-10T18:00:00Z\",\"length\":60}"), None);
    assert_eq!(parse_meeting(b"{\"timestamp\":\"2018-01-00T18:00:00Z\",\"length\":60}"), None);
    assert_eq!(parse_meeting(b"{\"timestamp\":\"2018-12-31T24:00:00Z\",\"length\":60}"), None);
    assert_eq!(parse_meeting(b"{\"timestamp\":\"2018-12-31T18:60:00Z\",\"length\":60}"), None);
}

#[test]
fn decode_reads_a_leap_day() {
    let read = parse_meeting(b"{\"timestamp\":\"2000-02-29T00:00:00Z\",\"length\":5}");
    assert_eq!(read, Some(meeting(2000, 2, 29, 0, 0, 0, 5)));
    assert_eq!(parse_meeting(b"{\"timestamp\":\"1900-02-29T00:00:00Z\",\"length\":5}"), None);
}

#[test]
fn timestamp_new_takes_what_the_calendar_has() {
    assert!(Timestamp::new(2024, 2, 29, 0, 0, 0).is_some());
    assert!(Timestamp::new(2023, 2, 29, 0, 0, 0).is_none());
    assert!(Timestamp::new(10000, 1, 1, 0, 0, 0).is_none());
    assert!(Timestamp::new(-1, 1, 1, 0, 0, 0).is_none());
    assert!(Timestamp::new(2024, 6, 31, 0, 0, 0).is_none());
    assert!(Timestamp::new(2024, 6, 30, 23, 59, 59).is_some());
    let stamp = Timestamp::new(2018, 12, 31, 18, 1, 2).unwrap();
    assert_eq!(stamp.date, Date { year: 2018, month: 12, day: 31 });
    assert_eq!((stamp.hour, stamp.minute, stamp.second), (18, 1, 2));
    assert!(stamp.is_valid());
    assert!(!Timestamp { date: Date { year: 2018, month: 2, day: 30 }, hour: 0, minute: 0, second: 0 }
        .is_valid());
}

#[test]
fn instants_follow_one_another() {
    let a = Timestamp::new(2018, 12, 31, 18, 0, 0).unwrap();
    let b = Timestamp::new(2018, 12, 31, 18, 0, 1).unwrap();
    let c = Timestamp::new(2019, 1, 1, 0, 0, 0).unwrap();
    assert!(a.le(a));
    assert!(a.le(b) && !b.le(a));
    assert!(b.le(c) && !c.le(b));
    assert!(a.le(c));
}

#[test]
fn dates_follow_one_another() {
    let a = Date { year: 2018, month: 12, day: 31 };
    let b = Date { year: 2019, month: 1, day: 1 };
    assert!(a.le(b) && !b.le(a) && a.le(a));
    assert!(a.within(a, b) && b.within(a, b));
    assert!(!a.within(b, a));
    assert!(!Date { year: 2019, month: 1, day: 2 }.within(a, b));
    assert!(!Date { year: 2018, month: 12, day: 30 }.within(a, b));
    assert_eq!(a.earlier(b), a);
    assert_eq!(b.earlier(a), a);
}

#[test]
fn numbers_are_written_in_decimal() {
    let mut out = b"x".to_vec();
    push_decimal(&mut out, 0);
    push_all(&mut out, b",");
    push_decimal(&mut out, 1234567890);
    push_all(&mut out, b",");
    push_padded(&mut out, 7, 4);
    push_all(&mut out, b",");
    push_padded(&mut out, 12345, 4);
    push_all(&mut out, b",");
    push_padded(&mut out, 5, 0);
    assert_eq!(out, b"x0,1234567890,0007,12345,5".to_vec());
    assert_eq!(digit_count(0), 1);
    assert_eq!(digit_count(9), 1);
    assert_eq!(digit_count(10), 2);
    assert_eq!(digit_count(u32::MAX), 10);
}

#[test]
fn digits_are_read_as_a_number() {
    assert_eq!(read_number(b"ab0123cd", 2, 6), Some(123));
    assert_eq!(read_number(b"ab0123cd", 2, 7), None);
    assert_eq!(read_number(b"ab0123cd", 2, 2), Some(0));
    assert_eq!(read_number(b"4294967295", 0, 10), Some(u32::MAX));
    assert_eq!(read_number(b"4294967296", 0, 10), None);
    assert_eq!(read_number(b"00000000000000000001", 0, 20), Some(1));
}

#[test]
fn the_calendar_has_the_days_of_each_month() {
    assert!(Date { year: 2018, month: 1, day: 31 }.is_calendar_day());
    assert!(Date { year: 2018, month: 4, day: 30 }.is_calendar_day());
    assert!(!Date { year: 2018, month: 4, day: 31 }.is_calendar_day());
    assert!(!Date { year: 2018, month: 2, day: 29 }.is_calendar_day());
    assert!(Date { year: 2020, month: 2, day: 29 }.is_calendar_day());
    assert!(!Date { year: 1900, month: 2, day: 29 }.is_calendar_day());
    assert!(Date { year: 2000, month: 2, day: 29 }.is_calendar_day());
    assert!(!Date { year: 2018, month: 0, day: 1 }.is_calendar_day());
    assert!(!Date { year: 2018, month: 13, day: 1 }.is_calendar_day());
    assert!(!Date { year: 2018, month: 1, day: 0 }.is_calendar_day());
    assert!(!Date { year: 2018, month: 1, day: u32::MAX }.is_calendar_day());
}

#[test]
fn the_calendar_has_leap_years_before_the_year_nought() {
    assert!(Date { year: 0, month: 2, day: 29 }.is_calendar_day());
    assert!(Date { year: -4, month: 2, day: 29 }.is_calendar_day());
    assert!(!Date { year: -1, month: 2, day: 29 }.is_calendar_day());
    assert!(!Date { year: -100, month: 2, day: 29 }.is_calendar_day());
    assert!(Date { year: -400, month: 2, day: 29 }.is_calendar_day());
    assert!(Date { year: i32::MIN, month: 2, day: 29 }.is_calendar_day());
    assert!(!Date { year: i32::MAX, month: 2, day: 29 }.is_calendar_day());
    assert!(Date { year: i32::MAX, month: 12, day: 31 }.is_calendar_day());
}

fn as_chrono_reads(text: &str, length: u32) -> Option<Meeting> {
    let utc = text.parse::<chrono::DateTime<chrono::FixedOffset>>().ok()?.naive_utc();
    let timestamp =
        Timestamp::new(utc.year(), utc.month(), utc.day(), utc.hour(), utc.minute(), utc.second())?;
    Some(Meeting { timestamp, length })
}

#[test]
fn decode_reads_a_line_that_is_spaced_otherwise() {
    let record = Some(meeting(2018, 12, 31, 18, 0, 0, 60));
    assert_eq!(parse_meeting(b"{\"timestamp\":\"2018-12-31T18:00:00Z\",\"length\":60} "), record);
    assert_eq!(parse_meeting(b"  { \"timestamp\" : \"2018-12-31T18:00:00Z\" ,\t\"length\" : 60 }"), record);
}

#[test]
fn decode_reads_the_fields_in_either_order_and_passes_over_others() {
    let record = Some(meeting(2018, 12, 31, 18, 0, 0, 60));
    assert_eq!(parse_meeting(b"{\"length\":60,\"timestamp\":\"2018-12-31T18:00:00Z\"}"), record);
    assert_eq!(
        parse_meeting(b"{\"note\":{\"with\":[\"whom\",1]},\"timestamp\":\"2018-12-31T18:00:00Z\",\"length\":60,\"room\":null}"),
        record
    );
}

#[test]
fn decode_reads_a_timestamp_with_an_offset_as_the_instant_in_utc() {
    assert_eq!(
        parse_meeting(b"{\"timestamp\":\"2018-12-31T13:00:00-05:00\",\"length\":60}"),
        Some(meeting(2018, 12, 31, 18, 0, 0, 60))
    );
    assert_eq!(
        parse_meeting(b"{\"timestamp\":\"2019-01-01T03:30:00+09:30\",\"length\":60}"),
        Some(meeting(2018, 12, 31, 18, 0, 0, 60))
    );
    assert_eq!(
        parse_meeting(b"{\"timestamp\":\"2018-12-31T18:00:00+00:00\",\"length\":60}"),
        Some(meeting(2018, 12, 31, 18, 0, 0, 60))
    );
}

#[test]
fn decode_reads_a_timestamp_to_the_second() {
    assert_eq!(
        parse_meeting(b"{\"timestamp\":\"2018-12-31T18:00:07.250Z\",\"length\":60}"),
        Some(meeting(2018, 12, 31, 18, 0, 7, 60))
    );
    assert_eq!(
        parse_meeting(b"{\"timestamp\":\"2018-12-31T18:00:07.999999999Z\",\"length\":60}"),
        Some(meeting(2018, 12, 31, 18, 0, 7, 60))
    );
}

#[test]
fn decode_reads_timestamps_as_chrono_reads_them() {
    let texts = [
        "2018-12-31T18:00:00Z",
        "2018-12-31 18:00:00Z",
        "2018-12-31t18:00:00z",
        "2018-12-31T18:00:60Z",
        "2018-12-31T23:59:60Z",
        "2018-12-31T18:00Z",
        "2018-12-31T18:00:00",
        "2018-12-31T18:00:00+0100",
        "2018-12-31T18:00:00 +01:00",
        "2018-12-31",
        "+10000-01-01T00:00:00Z",
        "-0001-12-31T00:00:00Z",
        "0000-01-01T00:00:00Z",
        "0000-01-01T00:00:00+01:00",
        "9999-12-31T23:59:59-01:00",
        "Mon, 31 Dec 2018 18:00:00 GMT",
        "",
    ];
    for text in texts {
        let line = format!("{{\"timestamp\":\"{}\",\"length\":9}}", text);
        assert_eq!(parse_meeting(line.as_bytes()), as_chrono_reads(text, 9), "{}", text);
    }
}

#[test]
fn a_record_is_assembled_from_a_timestamp_and_a_length() {
    let stamp = Timestamp::new(2018, 12, 31, 18, 0, 0).unwrap();
    assert_eq!(assemble(Some(stamp), Some(60)), Some(Meeting { timestamp: stamp, length: 60 }));
    assert_eq!(
        assemble(Some(stamp), Some(4294967295)),
        Some(Meeting { timestamp: stamp, length: u32::MAX })
    );
    assert_eq!(assemble(Some(stamp), Some(4294967296)), None);
    assert_eq!(assemble(Some(stamp), None), None);
    assert_eq!(assemble(None, Some(60)), None);
    let mut broken = stamp;
    broken.date.day = 32;
    assert_eq!(assemble(Some(broken), Some(60)), None);
}
