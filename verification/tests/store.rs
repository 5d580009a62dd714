use meetings::calendar::{Instants, Timestamp};
use meetings::error::Error;
use meetings::record::{encode, Meeting};
use meetings::store::{load_all, log, log_path, log_path_in, stored_line};
use std::path::PathBuf;

fn meeting(day: u32, hour: u32, length: u32) -> Meeting {
    Meeting { timestamp: Timestamp::new(2018, 12, day, hour, 0, 0).unwrap(), length }
}

#[test]
fn one_good_line_and_one_garbage_line_give_one_record() {
    let text = b"{\"timestamp\":\"2018-12-31T18:00:00Z\",\"length\":60}\nthis is not a record\n";
    assert_eq!(load_all(text), vec![meeting(31, 18, 60)]);
    let text = b"this is not a record\n{\"timestamp\":\"2018-12-31T18:00:00Z\",\"length\":60}\n";
    assert_eq!(load_all(text), vec![meeting(31, 18, 60)]);
}

#[test]
fn load_keeps_the_order_of_the_log() {
    let mut text = Vec::new();
    text.extend(stored_line(&meeting(31, 18, 60)));
    text.extend(stored_line(&meeting(1, 9, 30)));
    text.extend(b"\n\n".to_vec());
    text.extend(stored_line(&meeting(15, 0, 0)));
    assert_eq!(load_all(&text), vec![meeting(31, 18, 60), meeting(1, 9, 30), meeting(15, 0, 0)]);
}

#[test]
fn load_reads_a_last_line_without_a_newline() {
    let text = encode(&meeting(31, 18, 60));
    assert_eq!(load_all(&text), vec![meeting(31, 18, 60)]);
}

#[test]
fn load_takes_a_carriage_return_before_a_newline_as_the_line_ending() {
    let text = b"{\"timestamp\":\"2018-12-31T18:00:00Z\",\"length\":60}\r\n{\"timestamp\":\"2018-12-01T09:00:00Z\",\"length\":30}\r\n";
    assert_eq!(load_all(text), vec![meeting(31, 18, 60), meeting(1, 9, 30)]);
}

#[test]
fn load_reads_a_line_with_a_carriage_return_left_at_its_end() {
    let text = b"{\"timestamp\":\"2018-12-31T18:00:00Z\",\"length\":60}\r";
    assert_eq!(load_all(text), vec![meeting(31, 18, 60)]);
    let text = b"{\"timestamp\":\"2018-12-31T18:00:00Z\",\"length\":60}\r\r\n";
    assert_eq!(load_all(text), vec![meeting(31, 18, 60)]);
    let text = b"{\"timestamp\":\"2018-12-31T18:00:00Z\",\r\"length\":60}\n";
    assert_eq!(load_all(text), vec![meeting(31, 18, 60)]);
}

#[test]
fn load_takes_each_line_by_itself() {
    let text = b"{\"timestamp\":\"2018-12-31T18:00:00Z\",\n\"length\":60}\n";
    assert_eq!(load_all(text), vec![]);
}

#[test]
fn load_of_nothing_is_nothing() {
    assert_eq!(load_all(b""), vec![]);
    assert_eq!(load_all(b"\n"), vec![]);
    assert_eq!(load_all(b"\n\n\r\n"), vec![]);
}

#[test]
fn load_twice_gives_the_same_records() {
    let text = b"{\"timestamp\":\"2018-12-31T18:00:00Z\",\"length\":60}\nnoise\n{\"timestamp\":\"2018-12-01T09:00:00Z\",\"length\":30}\n";
    assert_eq!(load_all(text), load_all(text));
    assert_eq!(load_all(text).len(), 2);
}

#[test]
fn stored_line_ends_with_a_newline() {
    assert_eq!(
        stored_line(&meeting(31, 18, 60)),
        b"{\"timestamp\":\"2018-12-31T18:00:00Z\",\"length\":60}\n".to_vec()
    );
}

#[test]
fn appending_a_record_adds_it_to_what_is_loaded() {
    let mut text = stored_line(&meeting(31, 18, 60));
    let before = load_all(&text);
    text.extend(stored_line(&meeting(1, 9, 30)));
    let mut expected = before;
    expected.push(meeting(1, 9, 30));
    assert_eq!(load_all(&text), expected);
}

#[test]
fn a_meeting_begins_at_the_one_instant_found_for_it() {
    let instant = Timestamp::new(2018, 12, 31, 18, 0, 0).unwrap();
    let later = Timestamp::new(2018, 12, 31, 19, 0, 0).unwrap();
    assert_eq!(
        Meeting::beginning(Instants::Once(instant), 60),
        Ok(Meeting { timestamp: instant, length: 60 })
    );
    assert_eq!(Meeting::beginning(Instants::Never, 60), Err(Error::InvalidTime));
    assert_eq!(Meeting::beginning(Instants::Twice(instant, later), 60), Err(Error::InvalidTime));
    assert_eq!(Meeting::beginning(Instants::Twice(instant, instant), 60), Err(Error::InvalidTime));
    let mut broken = instant;
    broken.date.year = 10000;
    assert_eq!(Meeting::beginning(Instants::Once(broken), 60), Err(Error::InvalidTime));
}

#[test]
fn a_meeting_of_today_begins_on_the_hour() {
    for hour in [0, 13, 23] {
        match Meeting::today(hour, 45) {
            Ok(meeting) => {
                assert_eq!(meeting.length, 45);
                assert!(meeting.is_valid());
                let shown = meetings::listing::localize(meeting).local;
                assert_eq!((shown.hour, shown.minute), (hour, 0));
            }
            Err(error) => assert_eq!(error, Error::InvalidTime),
        }
    }
}

#[test]
fn log_writes_a_line_that_loads_as_one_record() {
    if let Ok(bytes) = log(13, 60) {
        assert_eq!(bytes.last(), Some(&b'\n'));
        let records = load_all(&bytes);
        assert_eq!(records.len(), 1);
        assert_eq!(records[0].length, 60);
        assert!(records[0].is_valid());
        assert_eq!(stored_line(&records[0]), bytes);
    }
}

#[test]
fn the_log_lies_in_the_home_directory() {
    assert_eq!(
        log_path_in(Some(PathBuf::from("/home/alice"))),
        Ok(PathBuf::from("/home/alice/.meetings"))
    );
    assert_eq!(log_path_in(Some(PathBuf::from("/"))), Ok(PathBuf::from("/.meetings")));
    assert_eq!(log_path_in(None), Err(Error::NoUserDirs));
}

#[test]
fn the_log_of_the_user_is_named_meetings() {
    match log_path() {
        Ok(path) => assert_eq!(path.file_name().and_then(|name| name.to_str()), Some(".meetings")),
        Err(error) => assert_eq!(error, Error::NoUserDirs),
    }
}

#[test]
fn errors_have_messages() {
    assert_eq!(Error::NoUserDirs.message(), "Unable to access user directories");
    assert_eq!(Error::InvalidDate.message(), "Invalid date");
    assert_eq!(Error::InvalidTime.message(), "Invalid time");
}

#[test]
fn load_reads_lines_that_were_edited_by_hand() {
    let text = b"{ \"length\": 30, \"timestamp\": \"2018-12-01T10:00:00+01:00\" }\n{\"timestamp\":\"2018-12-31T18:00:00Z\",\"length\":60}\n[\"2018-12-31T18:00:00Z\",60]\n";
    assert_eq!(load_all(text), vec![meeting(1, 9, 30), meeting(31, 18, 60)]);
}
