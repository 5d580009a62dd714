//! The machine the library runs on: its clock and local time zone, as chrono
//! knows them, and the home directory of its user.
//!
//! Nothing here is proved: each function hands plain values to code outside
//! the library and hands back what that code answers. Where an answer depends
//! on the machine, the contract states only what holds of every answer.

use crate::calendar::{Date, Instants, Resolution, Timestamp, WallClock};
use chrono::{Datelike, Local, LocalResult, NaiveDate, TimeZone, Timelike, Utc};
use directories::UserDirs;
use std::path::PathBuf;
use vstd::prelude::*;

verus! {

/// A path of the file system, `std::path::PathBuf`, of which nothing is
/// known but what the functions that make one state.
#[verifier::external_type_specification]
#[verifier::external_body]
pub struct ExPathBuf(PathBuf);

/// The path that `std::path::Path::join` makes of `base` and `name`.
pub uninterp spec fn joined(base: PathBuf, name: Seq<char>) -> PathBuf;

/// The path of `name` under `base`, from `std::path::Path::join`.
#[verifier::external_body]
pub(crate) fn join(base: &PathBuf, name: &str) -> (path: PathBuf)
    ensures
        path == joined(*base, name@),
{
    base.join(name)
}

/// The home directory of the user, from `directories::UserDirs::new` and its
/// `home_dir`; `None` where the system names none.
#[verifier::external_body]
pub(crate) fn home_dir() -> (home: Option<PathBuf>) {
    UserDirs::new().map(|dirs| dirs.home_dir().to_path_buf())
}

/// Today's date in the local time zone, from `chrono::Local::today`. Which
/// day it is the clock says; chrono hands back none but days of the calendar.
#[verifier::external_body]
#[allow(deprecated)]
pub(crate) fn today() -> (date: Date)
    ensures
        date.calendar_day(),
{
    let day = Local::today().naive_local();
    Date { year: day.year(), month: day.month(), day: day.day() }
}

/// The instants at which the local clock shows the given time of day on
/// `date`, from `chrono::TimeZone::from_local_datetime` of `chrono::Local`.
/// There is none where chrono has no such date or time of day.
#[verifier::external_body]
pub(crate) fn at_time(date: Date, hour: u32, minute: u32, second: u32) -> (found: Instants) {
    let day = NaiveDate::from_ymd_opt(date.year, date.month, date.day);
    let wall = day.and_then(|day| day.and_hms_opt(hour, minute, second));
    let utc = wall.map(|wall| Local.from_local_datetime(&wall).map(|local| local.naive_utc()));
    let fields = |utc: chrono::NaiveDateTime| Timestamp {
        date: Date { year: utc.year(), month: utc.month(), day: utc.day() },
        hour: utc.hour(),
        minute: utc.minute(),
        second: utc.second(),
    };
    match utc {
        Some(LocalResult::Single(only)) => Instants::Once(fields(only)),
        Some(LocalResult::Ambiguous(first, second)) => Instants::Twice(fields(first), fields(second)),
        _ => Instants::Never,
    }
}

/// What the local time zone makes of `date`, from
/// `chrono::TimeZone::from_local_date` of `chrono::Local`, which looks for
/// the local midnight that begins the date. Every date that chrono hands back
/// is the date it was given; a date that chrono does not have begins nowhere.
#[verifier::external_body]
#[allow(deprecated)]
pub(crate) fn resolve(date: Date) -> (found: Resolution)
    ensures
        found matches Resolution::Once(only) ==> only == date,
        found matches Resolution::Twice(first, second) ==> first == date && second == date,
{
    let day = NaiveDate::from_ymd_opt(date.year, date.month, date.day);
    match day.map(|day| Local.from_local_date(&day)) {
        Some(LocalResult::Single(a)) => Resolution::Once(
            Date { year: a.year(), month: a.month(), day: a.day() },
        ),
        Some(LocalResult::Ambiguous(a, b)) => Resolution::Twice(
            Date { year: a.year(), month: a.month(), day: a.day() },
            Date { year: b.year(), month: b.month(), day: b.day() },
        ),
        _ => Resolution::Nowhere,
    }
}

/// What the local clock shows at `instant`, from
/// `chrono::DateTime::with_timezone` to `chrono::Local`. The instant has to be
/// well formed: chrono is handed its fields as a date and a time of day.
/// chrono keeps every time zone less than a day away from UTC, so the local
/// clock shows the day that it is in UTC, the day before or the day after,
/// and chrono hands back none but days of the calendar.
#[verifier::external_body]
pub(crate) fn local_time(instant: Timestamp) -> (shown: WallClock)
    requires
        instant.wf(),
    ensures
        shown.date.near(instant.date),
        shown.date.calendar_day(),
{
    let day = NaiveDate::from_ymd_opt(instant.date.year, instant.date.month, instant.date.day);
    let utc = day.unwrap().and_hms_opt(instant.hour, instant.minute, instant.second).unwrap();
    let local = Utc.from_utc_datetime(&utc).with_timezone(&Local).naive_local();
    WallClock {
        date: Date { year: local.year(), month: local.month(), day: local.day() },
        hour: local.hour(),
        minute: local.minute(),
    }
}

} // verus!
