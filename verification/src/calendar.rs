//! Civil dates and times of day: the values that a clock or a calendar shows,
//! and the order in which they follow one another.

use vstd::prelude::*;

verus! {

/// Whether `year` of the Gregorian calendar has a 29th of February.
pub open spec fn is_leap_year(year: int) -> bool {
    year % 4 == 0 && (year % 100 != 0 || year % 400 == 0)
}

/// The number of days of `month` (1 to 12) in `year`.
pub open spec fn days_in_month(year: int, month: int) -> int {
    if month == 2 {
        if is_leap_year(year) {
            29
        } else {
            28
        }
    } else if month == 4 || month == 6 || month == 9 || month == 11 {
        30
    } else {
        31
    }
}

/// A calendar date: year, month and day as a calendar shows them. Dates are
/// ordered as they follow one another, by year, then month, then day.
#[derive(Clone, Copy, Debug, PartialEq, Eq, Structural)]
pub struct Date {
    pub year: i32,
    pub month: u32,
    pub day: u32,
}

impl Date {
    /// Whether the calendar has the day: a month from 1 to 12, and a day from
    /// 1 to the number of days of that month in that year.
    pub open spec fn calendar_day(self) -> bool {
        &&& 1 <= self.month <= 12
        &&& 1 <= self.day <= days_in_month(self.year as int, self.month as int)
    }

    /// The day after `self`, for a day of the calendar in a year that is not
    /// the last that the type holds.
    pub open spec fn next(self) -> Date {
        if self.day < days_in_month(self.year as int, self.month as int) {
            Date { year: self.year, month: self.month, day: (self.day + 1) as u32 }
        } else if self.month < 12 {
            Date { year: self.year, month: (self.month + 1) as u32, day: 1 }
        } else {
            Date { year: (self.year + 1) as i32, month: 1, day: 1 }
        }
    }

    /// Whether `self` is `other`, the day before it or the day after it.
    pub open spec fn near(self, other: Date) -> bool {
        self == other || self == other.next() || other == self.next()
    }

    /// Whether the calendar has the day: a month from 1 to 12, and a day from
    /// 1 to the number of days of that month in that year.
    #[verifier::when_used_as_spec(calendar_day)]
    pub fn is_calendar_day(self) -> (r: bool)
        ensures
            r == self.calendar_day(),
    {
        if self.month < 1 || self.month > 12 {
            return false;
        }
        // Leap years come round every 400 years: a year counts as the year
        // that many times 400 years later, which is none before the year 0.
        let year: u64 = (self.year as i64 + 2_147_484_000) as u64;
        let leap: bool = year % 4 == 0 && (year % 100 != 0 || year % 400 == 0);
        proof {
            assert(leap == is_leap_year(self.year as int));
        }
        let days: u32 = if self.month == 2 {
            if leap {
                29
            } else {
                28
            }
        } else if self.month == 4 || self.month == 6 || self.month == 9 || self.month == 11 {
            30
        } else {
            31
        };
        1 <= self.day && self.day <= days
    }

    /// Whether `self` is `other` or comes before it.
    pub open spec fn le_spec(self, other: Date) -> bool {
        self.year < other.year || (self.year == other.year && (self.month < other.month || (
        self.month == other.month && self.day <= other.day)))
    }

    /// Whether `self` lies in the range from `start` to `end`, both ends
    /// included.
    pub open spec fn within_spec(self, start: Date, end: Date) -> bool {
        start.le_spec(self) && self.le_spec(end)
    }

    /// Whether `self` is `other` or comes before it.
    #[verifier::when_used_as_spec(le_spec)]
    pub fn le(self, other: Date) -> (r: bool)
        ensures
            r == self.le_spec(other),
    {
        self.year < other.year || (self.year == other.year && (self.month < other.month || (
        self.month == other.month && self.day <= other.day)))
    }

    /// Whether `self` lies in the range from `start` to `end`, both ends
    /// included.
    #[verifier::when_used_as_spec(within_spec)]
    pub fn within(self, start: Date, end: Date) -> (r: bool)
        ensures
            r == self.within_spec(start, end),
    {
        start.le(self) && self.le(end)
    }

    /// The earlier of `self` and `other`; `self` where they are the same day.
    pub fn earlier(self, other: Date) -> (r: Date)
        ensures
            r == (if self.le_spec(other) {
                self
            } else {
                other
            }),
    {
        if self.le(other) {
            self
        } else {
            other
        }
    }
}

/// An instant, to the second, as the date and the time of day that a clock
/// set to UTC shows at it. Instants are ordered as they follow one another.
#[derive(Clone, Copy, Debug, PartialEq, Eq, Structural)]
pub struct Timestamp {
    pub date: Date,
    pub hour: u32,
    pub minute: u32,
    pub second: u32,
}

impl Timestamp {
    /// Whether the fields name a day that the calendar has, in a year of four
    /// digits, and a time of day that a clock shows.
    pub open spec fn wf(self) -> bool {
        &&& 0 <= self.date.year <= 9999
        &&& self.date.calendar_day()
        &&& self.hour < 24
        &&& self.minute < 60
        &&& self.second < 60
    }

    /// Whether `self` is `other` or comes before it.
    pub open spec fn le_spec(self, other: Timestamp) -> bool {
        if self.date != other.date {
            self.date.le_spec(other.date)
        } else if self.hour != other.hour {
            self.hour < other.hour
        } else if self.minute != other.minute {
            self.minute < other.minute
        } else {
            self.second <= other.second
        }
    }

    /// Whether the fields name a day that the calendar has, in a year of four
    /// digits, and a time of day that a clock shows.
    #[verifier::when_used_as_spec(wf)]
    pub fn is_valid(self) -> (r: bool)
        ensures
            r == self.wf(),
    {
        0 <= self.date.year && self.date.year <= 9999 && self.date.is_calendar_day() && self.hour
            < 24 && self.minute < 60 && self.second < 60
    }

    /// The instant that a UTC clock shows as the given date and time of day,
    /// where there is one.
    pub fn new(year: i32, month: u32, day: u32, hour: u32, minute: u32, second: u32) -> (r: Option<
        Timestamp,
    >)
        ensures
            r == (if Self::of(year, month, day, hour, minute, second).wf() {
                Some(Self::of(year, month, day, hour, minute, second))
            } else {
                None
            }),
    {
        let stamp = Timestamp { date: Date { year, month, day }, hour, minute, second };
        if stamp.is_valid() {
            Some(stamp)
        } else {
            None
        }
    }

    /// The value with the given fields.
    pub open spec fn of(year: i32, month: u32, day: u32, hour: u32, minute: u32, second: u32)
        -> Timestamp {
        Timestamp { date: Date { year, month, day }, hour, minute, second }
    }

    /// Whether `self` is `other` or comes before it.
    #[verifier::when_used_as_spec(le_spec)]
    pub fn le(self, other: Timestamp) -> (r: bool)
        ensures
            r == self.le_spec(other),
    {
        if self.date != other.date {
            self.date.le(other.date)
        } else if self.hour != other.hour {
            self.hour < other.hour
        } else if self.minute != other.minute {
            self.minute < other.minute
        } else {
            self.second <= other.second
        }
    }
}

/// What a clock on the wall shows at some instant: the date, the hour and
/// the minute, in the time zone the clock is set to.
#[derive(Clone, Copy, Debug, PartialEq, Eq, Structural)]
pub struct WallClock {
    pub date: Date,
    pub hour: u32,
    pub minute: u32,
}

/// What a time zone makes of a calendar date: the date may not begin in it
/// at all, begin once, or begin twice where the clocks are set back.
#[derive(Clone, Copy, Debug, PartialEq, Eq, Structural)]
pub enum Resolution {
    Nowhere,
    Once(Date),
    Twice(Date, Date),
}

/// What a time zone makes of a date and time of day on the local clock: the
/// clock may skip that time, show it at one instant, or show it at two where
/// it is set back.
#[derive(Clone, Copy, Debug, PartialEq, Eq, Structural)]
pub enum Instants {
    Never,
    Once(Timestamp),
    Twice(Timestamp, Timestamp),
}

/// Of two dates, one is the other or comes before it.
pub proof fn lemma_date_order_total(a: Date, b: Date)
    ensures
        a.le_spec(b) || b.le_spec(a),
        a.le_spec(b) && b.le_spec(a) ==> a == b,
{
}

/// What comes before a date comes before all that follows it.
pub proof fn lemma_date_order_transitive(a: Date, b: Date, c: Date)
    requires
        a.le_spec(b),
        b.le_spec(c),
    ensures
        a.le_spec(c),
{
}

/// Of two instants, one is the other or comes before it.
pub proof fn lemma_instant_order_total(a: Timestamp, b: Timestamp)
    ensures
        a.le_spec(b) || b.le_spec(a),
        a.le_spec(b) && b.le_spec(a) ==> a == b,
{
}

/// What comes before an instant comes before all that follows it.
pub proof fn lemma_instant_order_transitive(a: Timestamp, b: Timestamp, c: Timestamp)
    requires
        a.le_spec(b),
        b.le_spec(c),
    ensures
        a.le_spec(c),
{
}

} // verus!
