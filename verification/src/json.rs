//! JSON text as serde_json reads it, and timestamps as chrono reads them.
//!
//! Nothing here is proved: each function hands its arguments to serde_json or
//! to chrono and hands back what they answer. An answer depends on nothing
//! but the arguments, so each has a name that the contracts of the library
//! speak of; what the answer is on a given text only the outside code says.

use crate::calendar::{Date, Timestamp};
use chrono::{DateTime, Datelike, FixedOffset, Timelike};
use serde_json::Value;
use vstd::prelude::*;

verus! {

/// A JSON value, `serde_json::Value`, of which nothing is known but what the
/// functions below state.
#[verifier::external_type_specification]
#[verifier::external_body]
pub struct ExValue(Value);

/// The JSON value that `serde_json::from_slice` reads from `text`, where
/// `text` is one JSON value and nothing else.
pub uninterp spec fn json_value(text: Seq<u8>) -> Option<Value>;

/// The member that `serde_json::Value::get` finds in `value` under `key`,
/// where `value` is an object that has one.
pub uninterp spec fn json_member(value: Value, key: Seq<char>) -> Option<Value>;

/// The text that `serde_json::Value::as_str` finds `value` to be, where it is
/// a string.
pub uninterp spec fn json_text(value: Value) -> Option<Seq<char>>;

/// The number that `serde_json::Value::as_u64` finds `value` to be, where it
/// is a whole number from 0 to `u64::MAX`.
pub uninterp spec fn json_number(value: Value) -> Option<u64>;

/// The instant that chrono reads from `text` as a date and time with an
/// offset from UTC, by `str::parse` to a `chrono::DateTime`: the date and the
/// time of day that it is in UTC at that instant, without the fraction of
/// its second.
pub uninterp spec fn instant_spelled(text: Seq<char>) -> Option<Timestamp>;

/// The JSON value that `text` spells, from `serde_json::from_slice`.
#[verifier::external_body]
pub(crate) fn parse_json(text: &[u8]) -> (value: Option<Value>)
    ensures
        value == json_value(text@),
{
    serde_json::from_slice(text).ok()
}

/// The member of `value` under `key`, from `serde_json::Value::get`.
#[verifier::external_body]
pub(crate) fn member(value: &Value, key: &str) -> (found: Option<Value>)
    ensures
        found == json_member(*value, key@),
{
    value.get(key).cloned()
}

/// The text that `value` is, from `serde_json::Value::as_str`.
#[verifier::external_body]
pub(crate) fn text_of(value: &Value) -> (text: Option<String>)
    ensures
        match text {
            Some(found) => json_text(*value) == Some(found@),
            None => json_text(*value) is None,
        },
{
    value.as_str().map(String::from)
}

/// The number that `value` is, from `serde_json::Value::as_u64`.
#[verifier::external_body]
pub(crate) fn number_of(value: &Value) -> (number: Option<u64>)
    ensures
        number == json_number(*value),
{
    value.as_u64()
}

/// The instant that `text` spells, from `str::parse` to a
/// `chrono::DateTime<chrono::FixedOffset>`, as chrono shows it in UTC.
#[verifier::external_body]
pub(crate) fn parse_instant(text: &str) -> (instant: Option<Timestamp>)
    ensures
        instant == instant_spelled(text@),
{
    let utc = text.parse::<DateTime<FixedOffset>>().ok()?.naive_utc();
    Some(
        Timestamp {
            date: Date { year: utc.year(), month: utc.month(), day: utc.day() },
            hour: utc.hour(),
            minute: utc.minute(),
            second: utc.second(),
        },
    )
}

} // verus!
