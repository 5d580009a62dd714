//! The meeting record and the line of text that stores it.
//!
//! A record is written as one line, without the line ending:
//!
//! ```text
//! {"timestamp":"2018-12-31T18:00:00Z","length":60}
//! ```
//!
//! The timestamp is the start of the meeting in UTC, the length its duration
//! in minutes. Reading a line that is written so gives back its record. Any
//! other line is read as JSON: it stores a record where it is an object with
//! a timestamp and a length, however it is spaced and whatever else it holds,
//! and nothing where it is not.

use crate::calendar::{Date, Timestamp};
use crate::json::{
    instant_spelled, json_member, json_number, json_text, json_value, member, number_of,
    parse_instant, parse_json, text_of,
};
use serde_json::Value;
use crate::text::{
    decimal, lemma_decimal, lemma_padded, lemma_padded_four, lemma_padded_two, padded, push_all,
    push_decimal, push_padded, read_number, spelled,
};
use vstd::prelude::*;

verus! {

/// One logged meeting: the instant it started and how many minutes it ran.
#[derive(Clone, Copy, Debug, PartialEq, Eq, Structural)]
pub struct Meeting {
    pub timestamp: Timestamp,
    pub length: u32,
}

impl Meeting {
    /// Whether the record can be stored: its timestamp is well formed.
    pub open spec fn wf(self) -> bool {
        self.timestamp.wf()
    }

    /// Whether the record can be stored: its timestamp is well formed.
    #[verifier::when_used_as_spec(wf)]
    pub fn is_valid(self) -> (r: bool)
        ensures
            r == self.wf(),
    {
        self.timestamp.is_valid()
    }
}

/// What a line starts with, up to the timestamp: `{"timestamp":"`.
pub open spec fn opening() -> Seq<u8> {
    seq![
        '{' as u8,
        '"' as u8,
        't' as u8,
        'i' as u8,
        'm' as u8,
        'e' as u8,
        's' as u8,
        't' as u8,
        'a' as u8,
        'm' as u8,
        'p' as u8,
        '"' as u8,
        ':' as u8,
        '"' as u8,
    ]
}

/// What stands between the timestamp and the length: `","length":`.
pub open spec fn separator() -> Seq<u8> {
    seq![
        '"' as u8,
        ',' as u8,
        '"' as u8,
        'l' as u8,
        'e' as u8,
        'n' as u8,
        'g' as u8,
        't' as u8,
        'h' as u8,
        '"' as u8,
        ':' as u8,
    ]
}

/// What a line ends with: `}`.
pub open spec fn closing() -> Seq<u8> {
    seq!['}' as u8]
}

/// An instant as text, `YYYY-MM-DDTHH:MM:SSZ`.
pub open spec fn stamp_text(stamp: Timestamp) -> Seq<u8> {
    padded(stamp.date.year as nat, 4) + seq!['-' as u8] + padded(stamp.date.month as nat, 2)
        + seq!['-' as u8] + padded(stamp.date.day as nat, 2) + seq!['T' as u8] + padded(
        stamp.hour as nat,
        2,
    ) + seq![':' as u8] + padded(stamp.minute as nat, 2) + seq![':' as u8] + padded(
        stamp.second as nat,
        2,
    ) + seq!['Z' as u8]
}

/// The line that stores `meeting`.
pub open spec fn encoded(meeting: Meeting) -> Seq<u8> {
    opening() + stamp_text(meeting.timestamp) + separator() + decimal(meeting.length as nat)
        + closing()
}

/// The well-formed record that is written as `line`, where there is one.
pub open spec fn written_as(line: Seq<u8>) -> Option<Meeting> {
    if exists|meeting: Meeting| meeting.wf() && #[trigger] encoded(meeting) == line {
        Some(choose|meeting: Meeting| meeting.wf() && #[trigger] encoded(meeting) == line)
    } else {
        None
    }
}

/// The record with the timestamp and the length that were found, where both
/// were found, the timestamp is well formed and the length fits.
pub open spec fn assembled(instant: Option<Timestamp>, length: Option<u64>) -> Option<Meeting> {
    match (instant, length) {
        (Some(timestamp), Some(minutes)) if timestamp.wf() && minutes <= u32::MAX => Some(
            Meeting { timestamp, length: minutes as u32 },
        ),
        _ => None,
    }
}

/// The timestamp that a JSON value holds: what its member `timestamp`
/// spells, where it has one and that is a string.
pub open spec fn instant_in(value: Value) -> Option<Timestamp> {
    match json_member(value, "timestamp"@) {
        Some(field) => match json_text(field) {
            Some(text) => instant_spelled(text),
            None => None,
        },
        None => None,
    }
}

/// The length that a JSON value holds: its member `length`, where it has one
/// and that is a whole number.
pub open spec fn length_in(value: Value) -> Option<u64> {
    match json_member(value, "length"@) {
        Some(field) => json_number(field),
        None => None,
    }
}

/// The record that `line` stores as JSON, where it is JSON and holds one.
pub open spec fn read_as_json(line: Seq<u8>) -> Option<Meeting> {
    match json_value(line) {
        Some(value) => assembled(instant_in(value), length_in(value)),
        None => None,
    }
}

/// The record that `line` stores: the record that is written as `line`, or
/// else the record that `line` holds as JSON.
pub open spec fn decoded(line: Seq<u8>) -> Option<Meeting> {
    match written_as(line) {
        Some(meeting) => Some(meeting),
        None => read_as_json(line),
    }
}

/// The fields that stand at the places where a stored record has them.
pub closed spec fn extracted(line: Seq<u8>) -> Option<Meeting> {
    if line.len() < 47 {
        None
    } else {
        match (
            spelled(line.subrange(14, 18)),
            spelled(line.subrange(19, 21)),
            spelled(line.subrange(22, 24)),
            spelled(line.subrange(25, 27)),
            spelled(line.subrange(28, 30)),
            spelled(line.subrange(31, 33)),
            spelled(line.subrange(45, line.len() - 1)),
        ) {
            (
                Some(year),
                Some(month),
                Some(day),
                Some(hour),
                Some(minute),
                Some(second),
                Some(length),
            ) => Some(
                Meeting {
                    timestamp: Timestamp {
                        date: Date { year: year as i32, month, day },
                        hour,
                        minute,
                        second,
                    },
                    length,
                },
            ),
            _ => None,
        }
    }
}

/// The text of a well-formed instant, byte by byte.
proof fn lemma_stamp_text(stamp: Timestamp)
    requires
        stamp.wf(),
    ensures
        stamp_text(stamp).len() == 20,
        stamp_text(stamp).subrange(0, 4) == padded(stamp.date.year as nat, 4),
        stamp_text(stamp).subrange(5, 7) == padded(stamp.date.month as nat, 2),
        stamp_text(stamp).subrange(8, 10) == padded(stamp.date.day as nat, 2),
        stamp_text(stamp).subrange(11, 13) == padded(stamp.hour as nat, 2),
        stamp_text(stamp).subrange(14, 16) == padded(stamp.minute as nat, 2),
        stamp_text(stamp).subrange(17, 19) == padded(stamp.second as nat, 2),
{
    lemma_padded_four(stamp.date.year as nat);
    lemma_padded_two(stamp.date.month as nat);
    lemma_padded_two(stamp.date.day as nat);
    lemma_padded_two(stamp.hour as nat);
    lemma_padded_two(stamp.minute as nat);
    lemma_padded_two(stamp.second as nat);
    let text = stamp_text(stamp);
    assert(text.len() == 20);
    assert(text.subrange(0, 4) =~= padded(stamp.date.year as nat, 4));
    assert(text.subrange(5, 7) =~= padded(stamp.date.month as nat, 2));
    assert(text.subrange(8, 10) =~= padded(stamp.date.day as nat, 2));
    assert(text.subrange(11, 13) =~= padded(stamp.hour as nat, 2));
    assert(text.subrange(14, 16) =~= padded(stamp.minute as nat, 2));
    assert(text.subrange(17, 19) =~= padded(stamp.second as nat, 2));
}

/// Where the parts of a line stand in it.
proof fn lemma_line_parts(
    head: Seq<u8>,
    stamp: Seq<u8>,
    middle: Seq<u8>,
    numeral: Seq<u8>,
    tail: Seq<u8>,
)
    requires
        head.len() == 14,
        stamp.len() == 20,
        middle.len() == 11,
        tail.len() == 1,
    ensures
        (head + stamp + middle + numeral + tail).len() == 46 + numeral.len(),
        (head + stamp + middle + numeral + tail).subrange(14, 34) == stamp,
        (head + stamp + middle + numeral + tail).subrange(45, 45 + numeral.len() as int) == numeral,
{
    let line = head + stamp + middle + numeral + tail;
    assert(line.subrange(14, 34) =~= stamp);
    assert(line.subrange(45, 45 + numeral.len() as int) =~= numeral);
}

/// What the fields of a well-formed instant spell where they stand in its
/// text.
proof fn lemma_stamp_fields(stamp: Timestamp, text: Seq<u8>)
    requires
        stamp.wf(),
        text == stamp_text(stamp),
    ensures
        text.len() == 20,
        spelled(text.subrange(0, 4)) == Some(stamp.date.year as u32),
        spelled(text.subrange(5, 7)) == Some(stamp.date.month),
        spelled(text.subrange(8, 10)) == Some(stamp.date.day),
        spelled(text.subrange(11, 13)) == Some(stamp.hour),
        spelled(text.subrange(14, 16)) == Some(stamp.minute),
        spelled(text.subrange(17, 19)) == Some(stamp.second),
{
    lemma_stamp_text(stamp);
    lemma_padded(stamp.date.year as nat, 4);
    lemma_padded(stamp.date.month as nat, 2);
    lemma_padded(stamp.date.day as nat, 2);
    lemma_padded(stamp.hour as nat, 2);
    lemma_padded(stamp.minute as nat, 2);
    lemma_padded(stamp.second as nat, 2);
}

/// The fields of a well-formed record stand in its line where they are
/// looked for.
proof fn lemma_extracted(meeting: Meeting)
    requires
        meeting.wf(),
    ensures
        extracted(encoded(meeting)) == Some(meeting),
{
    let line = encoded(meeting);
    let text = stamp_text(meeting.timestamp);
    let numeral = decimal(meeting.length as nat);
    lemma_stamp_fields(meeting.timestamp, text);
    lemma_decimal(meeting.length as nat);
    lemma_line_parts(opening(), text, separator(), numeral, closing());
    assert(line.subrange(14, 18) =~= line.subrange(14, 34).subrange(0, 4));
    assert(line.subrange(19, 21) =~= line.subrange(14, 34).subrange(5, 7));
    assert(line.subrange(22, 24) =~= line.subrange(14, 34).subrange(8, 10));
    assert(line.subrange(25, 27) =~= line.subrange(14, 34).subrange(11, 13));
    assert(line.subrange(28, 30) =~= line.subrange(14, 34).subrange(14, 16));
    assert(line.subrange(31, 33) =~= line.subrange(14, 34).subrange(17, 19));
    assert(line.subrange(45, line.len() - 1) == numeral);
    assert(spelled(numeral) == Some(meeting.length));
}

/// Whether `bytes` holds nothing below the hyphen, and so none of the bytes
/// that end a line.
spec fn plain(bytes: Seq<u8>) -> bool {
    forall|i: int| 0 <= i < bytes.len() ==> #[trigger] bytes[i] >= 45
}

/// A padded numeral is plain.
proof fn lemma_padded_plain(value: nat, width: nat)
    ensures
        plain(padded(value, width)),
{
    lemma_padded(value, width);
    let numeral = padded(value, width);
    assert forall|i: int| 0 <= i < numeral.len() implies #[trigger] numeral[i] >= 45 by {
        assert(crate::text::is_digit(numeral[i]));
    }
}

/// Plain bytes with one more plain byte and a padded numeral behind them are
/// plain.
proof fn lemma_plain_more(bytes: Seq<u8>, mark: u8, value: nat, width: nat)
    requires
        plain(bytes),
        mark >= 45,
    ensures
        plain(bytes + seq![mark] + padded(value, width)),
{
    lemma_padded_plain(value, width);
    let numeral = padded(value, width);
    let whole = bytes + seq![mark] + numeral;
    assert forall|i: int| 0 <= i < whole.len() implies #[trigger] whole[i] >= 45 by {
        if i < bytes.len() {
            assert(whole[i] == bytes[i]);
        } else if i > bytes.len() {
            assert(whole[i] == numeral[i - bytes.len() - 1]);
        }
    }
}

/// The text of a well-formed instant holds digits, hyphens, colons and
/// letters, none of which ends a line.
proof fn lemma_stamp_plain(stamp: Timestamp)
    requires
        stamp.wf(),
    ensures
        stamp_text(stamp).len() == 20,
        plain(stamp_text(stamp)),
{
    lemma_stamp_text(stamp);
    let year = padded(stamp.date.year as nat, 4);
    lemma_padded_plain(stamp.date.year as nat, 4);
    lemma_plain_more(year, '-' as u8, stamp.date.month as nat, 2);
    let month = year + seq!['-' as u8] + padded(stamp.date.month as nat, 2);
    lemma_plain_more(month, '-' as u8, stamp.date.day as nat, 2);
    let day = month + seq!['-' as u8] + padded(stamp.date.day as nat, 2);
    lemma_plain_more(day, 'T' as u8, stamp.hour as nat, 2);
    let hour = day + seq!['T' as u8] + padded(stamp.hour as nat, 2);
    lemma_plain_more(hour, ':' as u8, stamp.minute as nat, 2);
    let minute = hour + seq![':' as u8] + padded(stamp.minute as nat, 2);
    lemma_plain_more(minute, ':' as u8, stamp.second as nat, 2);
    let second = minute + seq![':' as u8] + padded(stamp.second as nat, 2);
    let text = second + seq!['Z' as u8];
    assert forall|i: int| 0 <= i < text.len() implies #[trigger] text[i] >= 45 by {
        if i < second.len() {
            assert(text[i] == second[i]);
        }
    }
    assert(text == stamp_text(stamp));
}

/// The line of a well-formed record is one line: it holds no newline and no
/// carriage return.
pub proof fn lemma_encoded_is_one_line(meeting: Meeting)
    requires
        meeting.wf(),
    ensures
        encoded(meeting).len() > 0,
        forall|i: int|
            0 <= i < encoded(meeting).len() ==> #[trigger] encoded(meeting)[i] != 10 && encoded(
                meeting,
            )[i] != 13,
{
    let line = encoded(meeting);
    let text = stamp_text(meeting.timestamp);
    let numeral = decimal(meeting.length as nat);
    lemma_stamp_plain(meeting.timestamp);
    lemma_decimal(meeting.length as nat);
    lemma_line_parts(opening(), text, separator(), numeral, closing());
    assert forall|i: int| 0 <= i < line.len() implies #[trigger] line[i] != 10 && line[i]
        != 13 by {
        if i < 14 {
            assert(line[i] == opening()[i]);
        } else if i < 34 {
            assert(line[i] == line.subrange(14, 34)[i - 14]);
            assert(text[i - 14] >= 45);
        } else if i < 45 {
            assert(line[i] == separator()[i - 34]);
        } else if i < 45 + numeral.len() {
            assert(line[i] == line.subrange(45, 45 + numeral.len() as int)[i - 45]);
            assert(crate::text::is_digit(numeral[i - 45]));
        } else {
            assert(line[i] == closing()[0]);
        }
    }
}

/// Two well-formed records that are written alike are the same record.
pub proof fn lemma_encoding_unique(a: Meeting, b: Meeting)
    requires
        a.wf(),
        b.wf(),
        encoded(a) == encoded(b),
    ensures
        a == b,
{
    lemma_extracted(a);
    lemma_extracted(b);
}

/// Reading the line of a well-formed record gives back that record, with its
/// timestamp and its length.
pub proof fn lemma_round_trip(meeting: Meeting)
    requires
        meeting.wf(),
    ensures
        written_as(encoded(meeting)) == Some(meeting),
        decoded(encoded(meeting)) == Some(meeting),
{
    let line = encoded(meeting);
    let found = choose|other: Meeting| other.wf() && #[trigger] encoded(other) == line;
    lemma_encoding_unique(meeting, found);
}

/// A record is written as its line and as no other, and every record that
/// is read from a line is well formed.
pub proof fn lemma_decoded_line(line: Seq<u8>)
    ensures
        written_as(line) matches Some(meeting) ==> meeting.wf() && encoded(meeting) == line,
        decoded(line) matches Some(meeting) ==> meeting.wf(),
{
}

/// The line that stores `meeting`, without a line ending.
pub fn encode(meeting: &Meeting) -> (line: Vec<u8>)
    requires
        meeting.wf(),
    ensures
        line@ == encoded(*meeting),
{
    let stamp = meeting.timestamp;
    let mut line: Vec<u8> = Vec::new();
    let head: [u8; 14] = [
        '{' as u8,
        '"' as u8,
        't' as u8,
        'i' as u8,
        'm' as u8,
        'e' as u8,
        's' as u8,
        't' as u8,
        'a' as u8,
        'm' as u8,
        'p' as u8,
        '"' as u8,
        ':' as u8,
        '"' as u8,
    ];
    let middle: [u8; 11] = [
        '"' as u8,
        ',' as u8,
        '"' as u8,
        'l' as u8,
        'e' as u8,
        'n' as u8,
        'g' as u8,
        't' as u8,
        'h' as u8,
        '"' as u8,
        ':' as u8,
    ];
    push_all(&mut line, head.as_slice());
    proof {
        assert(head@ =~= opening());
        assert(line@ =~= opening());
    }
    push_padded(&mut line, stamp.date.year as u32, 4);
    line.push('-' as u8);
    push_padded(&mut line, stamp.date.month, 2);
    line.push('-' as u8);
    push_padded(&mut line, stamp.date.day, 2);
    line.push('T' as u8);
    push_padded(&mut line, stamp.hour, 2);
    line.push(':' as u8);
    push_padded(&mut line, stamp.minute, 2);
    line.push(':' as u8);
    push_padded(&mut line, stamp.second, 2);
    line.push('Z' as u8);
    proof {
        assert(line@ =~= opening() + stamp_text(stamp));
        assert(middle@ =~= separator());
    }
    push_all(&mut line, middle.as_slice());
    push_decimal(&mut line, meeting.length);
    line.push('}' as u8);
    proof {
        assert(line@ =~= encoded(*meeting));
    }
    line
}

/// The fields that stand at the places where a stored record has them.
fn extract(line: &[u8]) -> (r: Option<Meeting>)
    ensures
        r == extracted(line@),
{
    let len: usize = line.len();
    if len < 47 {
        return None;
    }
    let year = read_number(line, 14, 18);
    let month = read_number(line, 19, 21);
    let day = read_number(line, 22, 24);
    let hour = read_number(line, 25, 27);
    let minute = read_number(line, 28, 30);
    let second = read_number(line, 31, 33);
    let length = read_number(line, 45, len - 1);
    match (year, month, day, hour, minute, second, length) {
        (Some(year), Some(month), Some(day), Some(hour), Some(minute), Some(second), Some(length)) => {
            Some(
                Meeting {
                    timestamp: Timestamp {
                        date: Date { year: year as i32, month, day },
                        hour,
                        minute,
                        second,
                    },
                    length,
                },
            )
        },
        _ => None,
    }
}

/// Whether `a` and `b` hold the same bytes.
fn same_bytes(a: &[u8], b: &[u8]) -> (r: bool)
    ensures
        r == (a@ == b@),
{
    if a.len() != b.len() {
        return false;
    }
    let mut index: usize = 0;
    while index < a.len()
        invariant
            index <= a.len(),
            a.len() == b.len(),
            a@.subrange(0, index as int) == b@.subrange(0, index as int),
        decreases a.len() - index,
    {
        if a[index] != b[index] {
            return false;
        }
        index = index + 1;
        proof {
            assert(a@.subrange(0, index as int) =~= a@.subrange(0, index - 1).push(
                a@[index - 1],
            ));
            assert(b@.subrange(0, index as int) =~= b@.subrange(0, index - 1).push(
                b@[index - 1],
            ));
        }
    }
    proof {
        assert(a@ =~= a@.subrange(0, index as int));
        assert(b@ =~= b@.subrange(0, index as int));
    }
    true
}

/// The record with the timestamp and the length that were found in a line,
/// where both were found, the timestamp is well formed and the length fits.
pub fn assemble(instant: Option<Timestamp>, length: Option<u64>) -> (r: Option<Meeting>)
    ensures
        r == assembled(instant, length),
{
    match (instant, length) {
        (Some(timestamp), Some(minutes)) => {
            if timestamp.is_valid() && minutes <= 0xffff_ffff {
                Some(Meeting { timestamp, length: minutes as u32 })
            } else {
                None
            }
        },
        _ => None,
    }
}

/// The timestamp that `value` holds.
fn find_instant(value: &Value) -> (r: Option<Timestamp>)
    ensures
        r == instant_in(*value),
{
    match member(value, "timestamp") {
        Some(field) => match text_of(&field) {
            Some(text) => parse_instant(text.as_str()),
            None => None,
        },
        None => None,
    }
}

/// The length that `value` holds.
fn find_length(value: &Value) -> (r: Option<u64>)
    ensures
        r == length_in(*value),
{
    match member(value, "length") {
        Some(field) => number_of(&field),
        None => None,
    }
}

/// The record that is written as `line`, where there is one.
fn parse_written(line: &[u8]) -> (r: Option<Meeting>)
    ensures
        r == written_as(line@),
{
    proof {
        assert forall|meeting: Meeting| meeting.wf() && #[trigger] encoded(meeting)
            == line@ implies extracted(line@) == Some(meeting) by {
            lemma_extracted(meeting);
        }
    }
    match extract(line) {
        Some(meeting) => {
            if !meeting.is_valid() {
                return None;
            }
            let written = encode(&meeting);
            if same_bytes(written.as_slice(), line) {
                proof {
                    lemma_round_trip(meeting);
                }
                Some(meeting)
            } else {
                None
            }
        },
        None => None,
    }
}

/// The record that `line` stores, or `None` where the line stores none: the
/// record that is written as `line`, or else the record that `line` holds as
/// JSON.
pub fn parse_meeting(line: &[u8]) -> (r: Option<Meeting>)
    ensures
        r == decoded(line@),
{
    match parse_written(line) {
        Some(meeting) => Some(meeting),
        None => match parse_json(line) {
            Some(value) => assemble(find_instant(&value), find_length(&value)),
            None => None,
        },
    }
}

} // verus!
