//! Listing the meetings of a range of days.
//!
//! A meeting belongs to the day that the local clock showed when it began. A
//! listing holds the meetings of the days asked for, both ends of the range
//! included, from the earliest to the latest, and the minutes they ran in
//! all.

use crate::calendar::{Date, Resolution, Timestamp, WallClock};
use crate::error::Error;
use crate::record::Meeting;
use crate::store::{load_all, records_of};
use crate::text::{decimal, padded, push_all, push_decimal, push_padded};
use crate::zone::{local_time, resolve, today};
use vstd::prelude::*;

verus! {

/// A meeting together with what the local clock showed when it began.
#[derive(Clone, Copy, Debug, PartialEq, Eq, Structural)]
pub struct Entry {
    pub meeting: Meeting,
    pub local: WallClock,
}

/// A year as a date shows it: four digits, and a sign in front where the
/// year does not lie between 0 and 9999.
pub open spec fn year_text(year: int) -> Seq<u8> {
    if 0 <= year <= 9999 {
        padded(year as nat, 4)
    } else if year < 0 {
        seq!['-' as u8] + padded((-year) as nat, 4)
    } else {
        seq!['+' as u8] + padded(year as nat, 4)
    }
}

/// What ends the line of an entry: ` minutes`.
pub open spec fn unit() -> Seq<u8> {
    seq![
        ' ' as u8,
        'm' as u8,
        'i' as u8,
        'n' as u8,
        'u' as u8,
        't' as u8,
        'e' as u8,
        's' as u8,
    ]
}

impl Entry {
    /// Whether the meeting began on a day from `start` to `end`, both
    /// included.
    pub open spec fn in_range(self, start: Date, end: Date) -> bool {
        self.local.date.within_spec(start, end)
    }

    /// The line that shows the entry, `YYYY-MM-DD HH:MM: N minutes`: the local
    /// date and time at which the meeting began, and its length.
    pub open spec fn text(self) -> Seq<u8> {
        year_text(self.local.date.year as int) + seq!['-' as u8] + padded(
            self.local.date.month as nat,
            2,
        ) + seq!['-' as u8] + padded(self.local.date.day as nat, 2) + seq![' ' as u8] + padded(
            self.local.hour as nat,
            2,
        ) + seq![':' as u8] + padded(self.local.minute as nat, 2) + seq![':' as u8, ' ' as u8]
            + decimal(self.meeting.length as nat) + unit()
    }

    /// Whether the meeting began on a day from `start` to `end`, both
    /// included.
    pub fn is_within_range(&self, start: Date, end: Date) -> (r: bool)
        ensures
            r == self.in_range(start, end),
    {
        self.local.date.within(start, end)
    }

    /// The line that shows the entry.
    pub fn describe(&self) -> (line: Vec<u8>)
        ensures
            line@ == self.text(),
    {
        let mut line: Vec<u8> = Vec::new();
        let year: i32 = self.local.date.year;
        if 0 <= year && year <= 9999 {
            push_padded(&mut line, year as u32, 4);
        } else if year < 0 {
            line.push('-' as u8);
            push_padded(&mut line, (0 - year as i64) as u32, 4);
        } else {
            line.push('+' as u8);
            push_padded(&mut line, year as u32, 4);
        }
        proof {
            assert(line@ =~= year_text(year as int));
        }
        line.push('-' as u8);
        push_padded(&mut line, self.local.date.month, 2);
        line.push('-' as u8);
        push_padded(&mut line, self.local.date.day, 2);
        line.push(' ' as u8);
        push_padded(&mut line, self.local.hour, 2);
        line.push(':' as u8);
        push_padded(&mut line, self.local.minute, 2);
        line.push(':' as u8);
        line.push(' ' as u8);
        push_decimal(&mut line, self.meeting.length);
        let tail: [u8; 8] = [
            ' ' as u8,
            'm' as u8,
            'i' as u8,
            'n' as u8,
            'u' as u8,
            't' as u8,
            'e' as u8,
            's' as u8,
        ];
        proof {
            assert(tail@ =~= unit());
        }
        push_all(&mut line, tail.as_slice());
        proof {
            assert(line@ =~= self.text());
        }
        line
    }
}

impl Meeting {
    /// Whether the local clock showed a day from `start` to `end`, both
    /// included, when the meeting began. That day is the day on which the
    /// meeting began in UTC, the day before or the day after, whichever the
    /// time zone says: a meeting is in a range that holds all three, and in
    /// none that holds none of them. No meeting lies in a range that ends
    /// before it starts.
    pub fn is_within_range(&self, start: Date, end: Date) -> (r: bool)
        requires
            self.wf(),
        ensures
            exists|day: Date|
                #[trigger] day.near(self.timestamp.date) && r == day.within_spec(start, end),
            !start.le_spec(end) ==> !r,
    {
        let entry = localize(*self);
        proof {
            if !start.le_spec(end) && entry.in_range(start, end) {
                crate::calendar::lemma_date_order_transitive(start, entry.local.date, end);
            }
            assert(entry.local.date.near(self.timestamp.date));
        }
        entry.is_within_range(start, end)
    }
}

/// `meeting` with what the local clock showed when it began: the day on
/// which it began in UTC, the day before or the day after, at some time of
/// day.
pub fn localize(meeting: Meeting) -> (entry: Entry)
    requires
        meeting.wf(),
    ensures
        entry.meeting == meeting,
        entry.local.date.near(meeting.timestamp.date),
{
    Entry { meeting, local: local_time(meeting.timestamp) }
}

/// The test for a meeting to begin on a day from `start` to `end`.
pub open spec fn in_days(start: Date, end: Date) -> spec_fn(Entry) -> bool {
    |entry: Entry| entry.in_range(start, end)
}

/// The test for a meeting to begin at `instant`.
pub open spec fn at_instant(instant: Timestamp) -> spec_fn(Entry) -> bool {
    |entry: Entry| entry.meeting.timestamp == instant
}

/// Those of `entries` that began on a day from `start` to `end`, both
/// included, in the order they have in `entries`.
pub open spec fn chosen(entries: Seq<Entry>, start: Date, end: Date) -> Seq<Entry> {
    entries.filter(in_days(start, end))
}

/// Those of `entries` that began at `instant`, in the order they have in
/// `entries`.
pub open spec fn starting_at(entries: Seq<Entry>, instant: Timestamp) -> Seq<Entry> {
    entries.filter(at_instant(instant))
}

/// Whether no entry comes before one that began earlier.
pub open spec fn sorted(entries: Seq<Entry>) -> bool {
    forall|i: int, j: int|
        0 <= i <= j < entries.len() ==> (#[trigger] entries[i]).meeting.timestamp.le_spec(
            (#[trigger] entries[j]).meeting.timestamp,
        )
}

/// Whether `listed` holds the entries of `entries` from the earliest to the
/// latest, those that began at the same instant in the order they have in
/// `entries`.
pub open spec fn arranged(listed: Seq<Entry>, entries: Seq<Entry>) -> bool {
    &&& sorted(listed)
    &&& forall|instant: Timestamp| #[trigger]
        starting_at(listed, instant) == starting_at(entries, instant)
}

/// The minutes that the meetings of `entries` ran in all.
pub open spec fn total_minutes(entries: Seq<Entry>) -> nat
    decreases entries.len(),
{
    if entries.len() == 0 {
        0
    } else {
        total_minutes(entries.drop_last()) + entries.last().meeting.length as nat
    }
}

/// The entries of `records` with `shown` as what the local clock showed for
/// each.
pub open spec fn paired(records: Seq<Meeting>, shown: Seq<WallClock>) -> Seq<Entry> {
    Seq::new(records.len(), |i: int| Entry { meeting: records[i], local: shown[i] })
}

/// Putting an entry behind all that began no later than it, and before all
/// that began later, keeps a listing arranged.
proof fn lemma_insert_arranged(listed: Seq<Entry>, entries: Seq<Entry>, entry: Entry, place: int)
    requires
        arranged(listed, entries),
        0 <= place <= listed.len(),
        forall|i: int|
            0 <= i < place ==> (#[trigger] listed[i]).meeting.timestamp.le_spec(
                entry.meeting.timestamp,
            ),
        forall|i: int|
            place <= i < listed.len() ==> !(#[trigger] listed[i]).meeting.timestamp.le_spec(
                entry.meeting.timestamp,
            ),
    ensures
        arranged(listed.insert(place, entry), entries.push(entry)),
{
    let front = listed.subrange(0, place);
    let back = listed.subrange(place, listed.len() as int);
    let grown = listed.insert(place, entry);
    assert(listed =~= front + back);
    assert forall|i: int, j: int| 0 <= i <= j < grown.len() implies (#[trigger] grown[i])
        .meeting.timestamp.le_spec((#[trigger] grown[j]).meeting.timestamp) by {
        let a = grown[i];
        let b = grown[j];
        if i < place && j > place {
            assert(a == listed[i] && b == listed[j - 1]);
        } else if i < place && j < place {
            assert(a == listed[i] && b == listed[j]);
        } else if i > place {
            assert(a == listed[i - 1] && b == listed[j - 1]);
        } else if i == place && j > place {
            assert(b == listed[j - 1]);
            crate::calendar::lemma_instant_order_total(
                entry.meeting.timestamp,
                b.meeting.timestamp,
            );
        } else if j == place && i < place {
            assert(a == listed[i]);
        }
    }
    assert forall|instant: Timestamp| #[trigger]
        starting_at(grown, instant) == starting_at(entries.push(entry), instant) by {
        let test = at_instant(instant);
        front.push(entry).lemma_filter_push(entry, test);
        Seq::filter_distributes_over_add(front.push(entry), back, test);
        Seq::filter_distributes_over_add(front, back, test);
        front.lemma_filter_push(entry, test);
        entries.lemma_filter_push(entry, test);
        assert(starting_at(listed, instant) == starting_at(entries, instant));
        if test(entry) {
            assert(back.all(|other: Entry| !test(other))) by {
                assert forall|i: int| 0 <= i < back.len() implies !test(#[trigger] back[i]) by {
                    assert(back[i] == listed[place + i]);
                }
            }
            back.lemma_all_neg_filter_empty(test);
            assert(back.filter(test) =~= Seq::<Entry>::empty());
            assert(front.filter(test) + back.filter(test) =~= front.filter(test));
            assert(front.filter(test).push(entry) + back.filter(test) =~= front.filter(test).push(
                entry,
            ));
        }
    }
}

/// Those of `entries` that began on a day from `start` to `end`, both
/// included, from the earliest to the latest; those that began at the same
/// instant keep the order they have in `entries`.
pub fn select(entries: &Vec<Entry>, start: Date, end: Date) -> (listed: Vec<Entry>)
    ensures
        arranged(listed@, chosen(entries@, start, end)),
{
    let mut listed: Vec<Entry> = Vec::new();
    let mut index: usize = 0;
    proof {
        assert(entries@.subrange(0, 0) =~= Seq::<Entry>::empty());
        reveal(Seq::filter);
    }
    while index < entries.len()
        invariant
            index <= entries.len(),
            arranged(listed@, chosen(entries@.subrange(0, index as int), start, end)),
        decreases entries.len() - index,
    {
        let entry: Entry = entries[index];
        let ghost seen = entries@.subrange(0, index as int);
        proof {
            assert(entries@.subrange(0, index + 1) =~= seen.push(entry));
            seen.lemma_filter_push(entry, in_days(start, end));
        }
        if entry.is_within_range(start, end) {
            let mut place: usize = listed.len();
            while place > 0 && !listed[place - 1].meeting.timestamp.le(entry.meeting.timestamp)
                invariant
                    place <= listed.len(),
                    forall|i: int|
                        place <= i < listed.len() ==> !(#[trigger] listed@[i])
                            .meeting.timestamp.le_spec(entry.meeting.timestamp),
                decreases place,
            {
                place = place - 1;
            }
            proof {
                assert forall|i: int| 0 <= i < place implies (#[trigger] listed@[i])
                    .meeting.timestamp.le_spec(entry.meeting.timestamp) by {
                    crate::calendar::lemma_instant_order_transitive(
                        listed@[i].meeting.timestamp,
                        listed@[place - 1].meeting.timestamp,
                        entry.meeting.timestamp,
                    );
                }
                lemma_insert_arranged(
                    listed@,
                    chosen(seen, start, end),
                    entry,
                    place as int,
                );
            }
            listed.insert(place, entry);
        }
        index = index + 1;
    }
    proof {
        assert(entries@.subrange(0, index as int) =~= entries@);
    }
    listed
}

/// A range of days holds its first and its last day, at whatever time of
/// day a meeting began on them, and no day before the first or after the
/// last.
pub proof fn lemma_range_inclusive(entry: Entry, start: Date, end: Date)
    requires
        start.le_spec(end),
    ensures
        entry.local.date == start ==> entry.in_range(start, end),
        entry.local.date == end ==> entry.in_range(start, end),
        !entry.local.date.le_spec(end) ==> !entry.in_range(start, end),
        !start.le_spec(entry.local.date) ==> !entry.in_range(start, end),
{
}

/// A listing holds the entries that began on a day of the range, and no
/// others.
pub proof fn lemma_listed_entries(
    listed: Seq<Entry>,
    entries: Seq<Entry>,
    start: Date,
    end: Date,
    entry: Entry,
)
    requires
        arranged(listed, chosen(entries, start, end)),
    ensures
        listed.contains(entry) <==> entries.contains(entry) && entry.in_range(start, end),
{
    let picked = chosen(entries, start, end);
    let instant = entry.meeting.timestamp;
    let test = at_instant(instant);
    let days = in_days(start, end);
    assert(starting_at(listed, instant) == starting_at(picked, instant));
    assert(test(entry));
    if listed.contains(entry) {
        let i = choose|i: int| 0 <= i < listed.len() && listed[i] == entry;
        listed.lemma_filter_contains(test, i);
        picked.lemma_filter_contains_rev(test, entry);
        let j = choose|j: int| 0 <= j < picked.len() && picked[j] == entry;
        entries.lemma_filter_pred(days, j);
        entries.lemma_filter_contains_rev(days, entry);
    }
    if entries.contains(entry) && entry.in_range(start, end) {
        let i = choose|i: int| 0 <= i < entries.len() && entries[i] == entry;
        entries.lemma_filter_contains(days, i);
        let j = choose|j: int| 0 <= j < picked.len() && picked[j] == entry;
        picked.lemma_filter_contains(test, j);
        listed.lemma_filter_contains_rev(test, entry);
    }
}

/// Two sorted listings in which the same entries began at each instant, in
/// the same order, are the same listing.
proof fn lemma_same_listing(a: Seq<Entry>, b: Seq<Entry>)
    requires
        sorted(a),
        sorted(b),
        forall|instant: Timestamp| #[trigger] starting_at(a, instant) == starting_at(b, instant),
    ensures
        a == b,
    decreases a.len(),
{
    if a.len() == 0 {
        if b.len() > 0 {
            let test = at_instant(b[0].meeting.timestamp);
            assert(test(b[0]));
            b.lemma_filter_contains(test, 0);
            assert(starting_at(a, b[0].meeting.timestamp) == starting_at(
                b,
                b[0].meeting.timestamp,
            ));
            a.lemma_filter_len(test);
        }
        assert(a =~= b);
    } else {
        let x = a.last();
        let instant = x.meeting.timestamp;
        let test = at_instant(instant);
        let shorter = a.drop_last();
        assert(a =~= shorter.push(x));
        shorter.lemma_filter_push(x, test);
        assert(starting_at(a, instant) == starting_at(b, instant));
        assert(starting_at(b, instant).last() == x);
        b.lemma_filter_len(test);
        let y = b.last();
        let other = at_instant(y.meeting.timestamp);
        let rest = b.drop_last();
        assert(b =~= rest.push(y));
        assert(instant == y.meeting.timestamp) by {
            // `x` stands in `b`, before its last entry or as that.
            let kept = starting_at(b, instant);
            assert(kept[kept.len() - 1] == x);
            assert(kept.contains(x));
            b.lemma_filter_contains_rev(test, x);
            let j = choose|j: int| 0 <= j < b.len() && b[j] == x;
            assert(b[j].meeting.timestamp.le_spec(b[b.len() - 1].meeting.timestamp));
            // `y` stands in `a`, before its last entry or as that.
            assert(other(b[b.len() - 1]));
            b.lemma_filter_contains(other, b.len() - 1);
            assert(starting_at(a, y.meeting.timestamp) == starting_at(b, y.meeting.timestamp));
            a.lemma_filter_contains_rev(other, y);
            let i = choose|i: int| 0 <= i < a.len() && a[i] == y;
            assert(a[i].meeting.timestamp.le_spec(a[a.len() - 1].meeting.timestamp));
            crate::calendar::lemma_instant_order_total(instant, y.meeting.timestamp);
        }
        rest.lemma_filter_push(y, test);
        assert(shorter.filter(test) =~= shorter.filter(test).push(x).drop_last());
        assert(rest.filter(test) =~= rest.filter(test).push(y).drop_last());
        assert(x == y);
        assert forall|moment: Timestamp| #[trigger]
            starting_at(shorter, moment) == starting_at(rest, moment) by {
            shorter.lemma_filter_push(x, at_instant(moment));
            rest.lemma_filter_push(y, at_instant(moment));
            assert(starting_at(a, moment) == starting_at(b, moment));
        }
        assert(sorted(shorter)) by {
            assert forall|i: int, j: int| 0 <= i <= j < shorter.len() implies (
            #[trigger] shorter[i]).meeting.timestamp.le_spec(
                (#[trigger] shorter[j]).meeting.timestamp,
            ) by {
                assert(shorter[i] == a[i] && shorter[j] == a[j]);
            }
        }
        assert(sorted(rest)) by {
            assert forall|i: int, j: int| 0 <= i <= j < rest.len() implies (#[trigger] rest[i])
                .meeting.timestamp.le_spec((#[trigger] rest[j]).meeting.timestamp) by {
                assert(rest[i] == b[i] && rest[j] == b[j]);
            }
        }
        lemma_same_listing(shorter, rest);
    }
}

/// Entries can be arranged in one way only: what `select` returns is the one
/// listing that its contract allows.
pub proof fn lemma_arranged_unique(first: Seq<Entry>, second: Seq<Entry>, entries: Seq<Entry>)
    requires
        arranged(first, entries),
        arranged(second, entries),
    ensures
        first == second,
{
    assert forall|instant: Timestamp| #[trigger]
        starting_at(first, instant) == starting_at(second, instant) by {
        assert(starting_at(first, instant) == starting_at(entries, instant));
        assert(starting_at(second, instant) == starting_at(entries, instant));
    }
    lemma_same_listing(first, second);
}

/// Nothing is arranged from no entries but an empty listing.
pub proof fn lemma_arranged_empty(listed: Seq<Entry>, entries: Seq<Entry>)
    requires
        arranged(listed, entries),
        entries.len() == 0,
    ensures
        listed.len() == 0,
{
    if listed.len() > 0 {
        let first = listed[0];
        let instant = first.meeting.timestamp;
        let test = at_instant(instant);
        assert(test(listed[0]));
        listed.lemma_filter_contains(test, 0);
        assert(starting_at(listed, instant).contains(first));
        assert(starting_at(listed, instant) == starting_at(entries, instant));
        entries.lemma_filter_len(test);
    }
}

/// No entry lies in a range of days that ends before it starts.
pub proof fn lemma_chosen_empty(entries: Seq<Entry>, start: Date, end: Date)
    requires
        !start.le_spec(end),
    ensures
        chosen(entries, start, end).len() == 0,
{
    let test = in_days(start, end);
    assert(entries.all(|entry: Entry| !test(entry))) by {
        assert forall|i: int| 0 <= i < entries.len() implies !test(#[trigger] entries[i]) by {
            if test(entries[i]) {
                crate::calendar::lemma_date_order_transitive(start, entries[i].local.date, end);
            }
        }
    }
    entries.lemma_all_neg_filter_empty(test);
}

/// The meetings of the log with the content `text` that began on a day from
/// `start` to `end`, as the local clock showed it, from the earliest to the
/// latest. What the local clock showed is for the time zone to say: for each
/// record the day on which it began in UTC, the day before or the day after.
/// Whatever it says, the listing is arranged from the records that it puts
/// into the range.
pub fn load_records(text: &[u8], start: Date, end: Date) -> (listed: Vec<Entry>)
    ensures
        exists|shown: Seq<WallClock>|
            shown.len() == records_of(text@).len() && arranged(
                listed@,
                chosen(#[trigger] paired(records_of(text@), shown), start, end),
            ) && forall|i: int|
                0 <= i < shown.len() ==> (#[trigger] shown[i]).date.near(
                    records_of(text@)[i].timestamp.date,
                ),
        !start.le_spec(end) ==> listed@.len() == 0,
{
    let records = load_all(text);
    let mut entries: Vec<Entry> = Vec::new();
    let ghost mut shown: Seq<WallClock> = Seq::empty();
    let mut index: usize = 0;
    while index < records.len()
        invariant
            index <= records.len(),
            forall|i: int| 0 <= i < records.len() ==> (#[trigger] records[i]).wf(),
            shown.len() == index,
            entries@ == paired(records@.subrange(0, index as int), shown),
            forall|i: int|
                0 <= i < index ==> (#[trigger] shown[i]).date.near(records@[i].timestamp.date),
        decreases records.len() - index,
    {
        let entry = localize(records[index]);
        entries.push(entry);
        proof {
            shown = shown.push(entry.local);
            assert(entries@ =~= paired(records@.subrange(0, index + 1), shown));
        }
        index = index + 1;
    }
    proof {
        assert(records@.subrange(0, index as int) =~= records@);
    }
    let listed = select(&entries, start, end);
    proof {
        assert(arranged(listed@, chosen(paired(records_of(text@), shown), start, end)));
        if !start.le_spec(end) {
            lemma_chosen_empty(entries@, start, end);
            lemma_arranged_empty(listed@, chosen(entries@, start, end));
        }
    }
    listed
}

/// What printing a listing shows: a line for each entry, and the minutes
/// that the meetings ran in all.
#[derive(Debug, PartialEq, Eq)]
pub struct Report {
    pub lines: Vec<Vec<u8>>,
    pub minutes: u128,
}

/// No listing runs longer than each of its meetings could at most.
pub proof fn lemma_total_bound(entries: Seq<Entry>)
    ensures
        total_minutes(entries) <= entries.len() * 0xffff_ffff,
    decreases entries.len(),
{
    if entries.len() > 0 {
        lemma_total_bound(entries.drop_last());
    }
}

/// What printing `entries` shows: the line of each entry, in their order, and
/// the minutes that the meetings ran in all.
pub fn print_records(entries: &Vec<Entry>) -> (report: Report)
    ensures
        report.lines@.len() == entries@.len(),
        forall|i: int| 0 <= i < entries@.len() ==> (#[trigger] report.lines@[i])@ == entries@[i].text(),
        report.minutes == total_minutes(entries@),
{
    let mut lines: Vec<Vec<u8>> = Vec::new();
    let mut minutes: u128 = 0;
    let mut index: usize = 0;
    while index < entries.len()
        invariant
            index <= entries.len(),
            lines@.len() == index,
            forall|i: int| 0 <= i < index ==> (#[trigger] lines@[i])@ == entries@[i].text(),
            minutes == total_minutes(entries@.subrange(0, index as int)),
        decreases entries.len() - index,
    {
        let entry: Entry = entries[index];
        proof {
            let seen = entries@.subrange(0, index + 1);
            assert(seen.drop_last() =~= entries@.subrange(0, index as int));
            lemma_total_bound(seen);
        }
        minutes = minutes + entry.meeting.length as u128;
        lines.push(entry.describe());
        index = index + 1;
    }
    proof {
        assert(entries@.subrange(0, index as int) =~= entries@);
    }
    Report { lines, minutes }
}

/// The day that a date stands for, given what the local time zone makes of
/// the date: the day itself where it begins once, the earlier of the two
/// where it begins twice, and an error where it does not begin.
pub fn earliest(found: Resolution) -> (r: Result<Date, Error>)
    ensures
        r == (match found {
            Resolution::Nowhere => Err::<Date, Error>(Error::InvalidDate),
            Resolution::Once(only) => Ok(only),
            Resolution::Twice(first, second) => Ok(
                if first.le_spec(second) {
                    first
                } else {
                    second
                },
            ),
        }),
{
    match found {
        Resolution::Nowhere => Err(Error::InvalidDate),
        Resolution::Once(only) => Ok(only),
        Resolution::Twice(first, second) => Ok(first.earlier(second)),
    }
}

/// `date` as a day of the local time zone. The day is `date` itself. It is an
/// error for `date` to be no day of the calendar, and for it not to begin in
/// the local time zone, which is for the time zone to say.
pub fn to_local_date(date: Date) -> (r: Result<Date, Error>)
    ensures
        r == Ok::<Date, Error>(date) || r == Err::<Date, Error>(Error::InvalidDate),
        !date.calendar_day() ==> r == Err::<Date, Error>(Error::InvalidDate),
{
    if !date.is_calendar_day() {
        return Err(Error::InvalidDate);
    }
    earliest(resolve(date))
}

/// The first and the last day of a listing, given what became of the two
/// dates that were asked for: the two days where both are days of the local
/// time zone, else the error of the first that is none.
pub fn both_days(first: Result<Date, Error>, last: Result<Date, Error>) -> (r: Result<
    (Date, Date),
    Error,
>)
    ensures
        r == (match (first, last) {
            (Ok(a), Ok(b)) => Ok::<(Date, Date), Error>((a, b)),
            (Err(error), _) => Err::<(Date, Date), Error>(error),
            (Ok(_), Err(error)) => Err::<(Date, Date), Error>(error),
        }),
{
    match first {
        Ok(a) => match last {
            Ok(b) => Ok((a, b)),
            Err(error) => Err(error),
        },
        Err(error) => Err(error),
    }
}

/// The days that a listing from `start` to `end` shows: these two and all
/// between them. It is an error for either to be no day of the calendar, and
/// for either not to begin in the local time zone, which is for the time
/// zone to say.
pub fn list_range(start: Date, end: Date) -> (r: Result<(Date, Date), Error>)
    ensures
        r == Ok::<(Date, Date), Error>((start, end)) || r == Err::<(Date, Date), Error>(
            Error::InvalidDate,
        ),
        !start.calendar_day() || !end.calendar_day() ==> r == Err::<(Date, Date), Error>(
            Error::InvalidDate,
        ),
{
    both_days(to_local_date(start), to_local_date(end))
}

/// The days that a listing of `date` shows: that day alone. It is an error
/// for `date` to be no day of the calendar, and for it not to begin in the
/// local time zone, which is for the time zone to say.
pub fn list_date(date: Date) -> (r: Result<(Date, Date), Error>)
    ensures
        r == Ok::<(Date, Date), Error>((date, date)) || r == Err::<(Date, Date), Error>(
            Error::InvalidDate,
        ),
        !date.calendar_day() ==> r == Err::<(Date, Date), Error>(Error::InvalidDate),
{
    let found = to_local_date(date);
    both_days(found, found)
}

/// The days that a listing without dates shows: today alone, whatever day
/// of the calendar the local clock says it is.
pub fn list_today() -> (r: (Date, Date))
    ensures
        r.0 == r.1,
        r.0.calendar_day(),
{
    let day = today();
    (day, day)
}

/// The first and the last of the days that a listing shows. With two dates
/// it shows the days from the first to the second, with one date that day,
/// with none today. A date that is given has to be a day of the calendar and
/// to begin in the local time zone. An end without a start is not a listing.
pub fn list(start: Option<Date>, end: Option<Date>) -> (r: Result<(Date, Date), Error>)
    requires
        start is None ==> end is None,
    ensures
        match (start, end) {
            (Some(first), Some(last)) => {
                &&& r == Ok::<(Date, Date), Error>((first, last)) || r == Err::<
                    (Date, Date),
                    Error,
                >(Error::InvalidDate)
                &&& !first.calendar_day() || !last.calendar_day() ==> r == Err::<
                    (Date, Date),
                    Error,
                >(Error::InvalidDate)
            },
            (Some(only), None) => {
                &&& r == Ok::<(Date, Date), Error>((only, only)) || r == Err::<
                    (Date, Date),
                    Error,
                >(Error::InvalidDate)
                &&& !only.calendar_day() ==> r == Err::<(Date, Date), Error>(Error::InvalidDate)
            },
            _ => r matches Ok(days) && days.0 == days.1 && days.0.calendar_day(),
        },
{
    match start {
        Some(first) => match end {
            Some(last) => list_range(first, last),
            None => list_date(first),
        },
        None => Ok(list_today()),
    }
}

} // verus!
