//! The log as it is stored: one record to a line, each line ended by a
//! newline. Reading takes the text apart into lines and keeps the record of
//! every line that stores one; a line that stores none is passed over.

use crate::calendar::Instants;
use crate::error::Error;
use crate::record::{
    decoded, encode, encoded, lemma_encoded_is_one_line, lemma_round_trip, parse_meeting, Meeting,
};
use crate::zone::{at_time, home_dir, join, joined, today};
use std::path::PathBuf;
use vstd::prelude::*;
use vstd::slice::slice_subrange;

verus! {

/// The byte that ends a line.
pub open spec fn newline() -> u8 {
    10
}

/// The byte that may stand before the end of a line and belongs to the line
/// ending then.
pub open spec fn carriage_return() -> u8 {
    13
}

/// Where the first line of `text` ends: the place of the first newline, or
/// the length of `text` where it holds none.
pub open spec fn first_break(text: Seq<u8>) -> nat
    decreases text.len(),
{
    if text.len() == 0 || text[0] == newline() {
        0
    } else {
        1 + first_break(text.drop_first())
    }
}

/// A line without the carriage return that its line ending began with.
pub open spec fn trimmed(line: Seq<u8>) -> Seq<u8> {
    if line.len() > 0 && line.last() == carriage_return() {
        line.drop_last()
    } else {
        line
    }
}

/// The lines of `text`. A line ends at a newline, or at a carriage return
/// directly followed by a newline, neither of which belongs to the line.
/// What follows the last newline is a line too, unless nothing follows.
pub open spec fn lines(text: Seq<u8>) -> Seq<Seq<u8>>
    decreases text.len(),
{
    if text.len() == 0 {
        Seq::empty()
    } else {
        let end = first_break(text) as int;
        if end >= text.len() {
            seq![text]
        } else {
            seq![trimmed(text.subrange(0, end))] + lines(text.subrange(end + 1, text.len() as int))
        }
    }
}

/// The records that `lines` store, in the order of the lines. A line that
/// stores no record adds nothing.
pub open spec fn kept(lines: Seq<Seq<u8>>) -> Seq<Meeting>
    decreases lines.len(),
{
    if lines.len() == 0 {
        Seq::empty()
    } else {
        match decoded(lines.last()) {
            Some(meeting) => kept(lines.drop_last()).push(meeting),
            None => kept(lines.drop_last()),
        }
    }
}

/// The records of a log with the content `text`.
pub open spec fn records_of(text: Seq<u8>) -> Seq<Meeting> {
    kept(lines(text))
}

/// The first line ends at the first newline.
pub proof fn lemma_first_break(text: Seq<u8>, end: nat)
    requires
        end <= text.len(),
        forall|i: int| 0 <= i < end ==> text[i] != newline(),
        end < text.len() ==> text[end as int] == newline(),
    ensures
        first_break(text) == end,
    decreases end,
{
    if end > 0 {
        let rest = text.drop_first();
        assert forall|i: int| 0 <= i < end - 1 implies rest[i] != newline() by {
            assert(rest[i] == text[i + 1]);
        }
        lemma_first_break(rest, (end - 1) as nat);
    }
}

/// What ends the first line: no newline stands before the place, and one
/// stands at it unless the text ends there.
pub proof fn lemma_first_break_found(text: Seq<u8>)
    ensures
        first_break(text) <= text.len(),
        forall|i: int| 0 <= i < first_break(text) ==> text[i] != newline(),
        first_break(text) < text.len() ==> text[first_break(text) as int] == newline(),
    decreases text.len(),
{
    if text.len() > 0 && text[0] != newline() {
        let rest = text.drop_first();
        lemma_first_break_found(rest);
        assert forall|i: int| 0 <= i < first_break(text) implies text[i] != newline() by {
            if i > 0 {
                assert(text[i] == rest[i - 1]);
            }
        }
        if first_break(text) < text.len() {
            assert(text[first_break(text) as int] == rest[first_break(rest) as int]);
        }
    }
}

/// The lines of a text that follows whole lines are lines of their own.
pub proof fn lemma_lines_concat(first: Seq<u8>, second: Seq<u8>)
    requires
        first.len() == 0 || first.last() == newline(),
    ensures
        lines(first + second) == lines(first) + lines(second),
    decreases first.len(),
{
    if first.len() == 0 {
        assert(first + second =~= second);
        assert(lines(first) + lines(second) =~= lines(second));
    } else {
        let whole = first + second;
        lemma_first_break_found(first);
        let end = first_break(first) as int;
        assert(end < first.len()) by {
            if end >= first.len() {
                assert(first[first.len() - 1] != newline());
            }
        }
        assert forall|i: int| 0 <= i < end implies whole[i] != newline() by {
            assert(whole[i] == first[i]);
        }
        assert(whole[end] == first[end]);
        lemma_first_break(whole, end as nat);
        let rest = first.subrange(end + 1, first.len() as int);
        assert(whole.subrange(0, end) =~= first.subrange(0, end));
        assert(whole.subrange(end + 1, whole.len() as int) =~= rest + second);
        if rest.len() > 0 {
            assert(rest.last() == first.last());
        }
        lemma_lines_concat(rest, second);
        assert(lines(whole) =~= lines(first) + lines(second));
    }
}

/// A text without a newline, ended by one, is one line.
pub proof fn lemma_lines_of_one(line: Seq<u8>)
    requires
        forall|i: int| 0 <= i < line.len() ==> line[i] != newline(),
    ensures
        lines(line.push(newline())) == seq![trimmed(line)],
{
    let text = line.push(newline());
    reveal_with_fuel(lines, 2);
    assert forall|i: int| 0 <= i < line.len() implies text[i] != newline() by {
        assert(text[i] == line[i]);
    }
    lemma_first_break(text, line.len());
    assert(text.subrange(0, line.len() as int) =~= line);
    assert(text.subrange(line.len() as int + 1, text.len() as int) =~= Seq::<u8>::empty());
    assert(lines(text) =~= seq![trimmed(line)]);
}

/// Appending the stored line of a well-formed record to a log of whole lines
/// adds that record behind those that the log held, and changes none of
/// them.
pub proof fn lemma_append(text: Seq<u8>, meeting: Meeting)
    requires
        meeting.wf(),
        text.len() == 0 || text.last() == newline(),
    ensures
        records_of(text + encoded(meeting).push(newline())) == records_of(text).push(meeting),
{
    let line = encoded(meeting);
    lemma_encoded_is_one_line(meeting);
    lemma_round_trip(meeting);
    lemma_lines_concat(text, line.push(newline()));
    lemma_lines_of_one(line);
    assert(trimmed(line) == line);
    let before = lines(text);
    assert(before + seq![line] =~= before.push(line));
    assert(before.push(line).drop_last() =~= before);
}

/// Every record read from a log is well formed.
pub proof fn lemma_kept_wf(lines: Seq<Seq<u8>>)
    ensures
        forall|i: int| 0 <= i < kept(lines).len() ==> (#[trigger] kept(lines)[i]).wf(),
    decreases lines.len(),
{
    if lines.len() > 0 {
        lemma_kept_wf(lines.drop_last());
        let before = kept(lines.drop_last());
        assert forall|i: int| 0 <= i < kept(lines).len() implies (#[trigger] kept(lines)[i]).wf() by {
            if i < before.len() {
                assert(kept(lines)[i] == before[i]);
            }
        }
    }
}

/// Where the line that starts at `start` ends: the place of the next
/// newline, or the end of `text`.
fn find_break(text: &[u8], start: usize) -> (end: usize)
    requires
        start <= text.len(),
    ensures
        start <= end <= text.len(),
        end - start == first_break(text@.subrange(start as int, text.len() as int)),
{
    let mut end: usize = start;
    while end < text.len() && text[end] != 10
        invariant
            start <= end <= text.len(),
            forall|i: int| start <= i < end ==> text@[i] != newline(),
        decreases text.len() - end,
    {
        end = end + 1;
    }
    proof {
        let rest = text@.subrange(start as int, text.len() as int);
        assert forall|i: int| 0 <= i < end - start implies rest[i] != newline() by {
            assert(rest[i] == text@[start + i]);
        }
        lemma_first_break(rest, (end - start) as nat);
    }
    end
}

/// The records of a log with the content `text`, in the order in which the
/// log holds them.
pub fn load_all(text: &[u8]) -> (records: Vec<Meeting>)
    ensures
        records@ == records_of(text@),
        forall|i: int| 0 <= i < records.len() ==> (#[trigger] records[i]).wf(),
{
    let len: usize = text.len();
    let mut records: Vec<Meeting> = Vec::new();
    let mut start: usize = 0;
    let ghost mut done: Seq<Seq<u8>> = Seq::empty();
    proof {
        assert(text@.subrange(0, len as int) =~= text@);
        assert(done + lines(text@) =~= lines(text@));
    }
    while start < len
        invariant
            start <= len,
            len == text.len(),
            lines(text@) == done + lines(text@.subrange(start as int, len as int)),
            records@ == kept(done),
        decreases len - start,
    {
        let end: usize = find_break(text, start);
        let ghost rest = text@.subrange(start as int, len as int);
        let ended: bool = end < len;
        let stop: usize = if ended && end > start && text[end - 1] == 13 {
            end - 1
        } else {
            end
        };
        let line = slice_subrange(text, start, stop);
        let next: usize = if ended {
            end + 1
        } else {
            end
        };
        proof {
            let after = text@.subrange(next as int, len as int);
            if ended {
                let whole = rest.subrange(0, end - start);
                assert(whole =~= text@.subrange(start as int, end as int));
                assert(line@ =~= trimmed(whole));
                assert(rest.subrange(end - start + 1, rest.len() as int) =~= after);
                assert(lines(rest) == seq![line@] + lines(after));
            } else {
                assert(line@ =~= rest);
                assert(after =~= Seq::<u8>::empty());
                assert(lines(rest) =~= seq![line@] + lines(after));
            }
            assert(done + (seq![line@] + lines(after)) =~= done.push(line@) + lines(after));
            assert(done.push(line@).drop_last() =~= done);
        }
        match parse_meeting(line) {
            Some(meeting) => {
                records.push(meeting);
            },
            None => {},
        }
        proof {
            done = done.push(line@);
        }
        start = next;
    }
    proof {
        assert(text@.subrange(start as int, len as int) =~= Seq::<u8>::empty());
        assert(done + Seq::<Seq<u8>>::empty() =~= done);
        lemma_kept_wf(done);
    }
    records
}

/// What appending `meeting` to the log writes: the line that stores it and
/// the newline that ends the line.
pub fn stored_line(meeting: &Meeting) -> (bytes: Vec<u8>)
    requires
        meeting.wf(),
    ensures
        bytes@ == encoded(*meeting).push(newline()),
{
    let mut bytes = encode(meeting);
    bytes.push(10);
    bytes
}

impl Meeting {
    /// The meeting of `length` minutes that began when the local clock showed
    /// some time, given the instants that the local time zone found for that
    /// time. It is an error for the clock to have skipped the time or shown
    /// it twice, and for the instant to be one that the log cannot hold.
    pub fn beginning(found: Instants, length: u32) -> (r: Result<Meeting, Error>)
        ensures
            r == (match found {
                Instants::Once(timestamp) if timestamp.wf() => Ok::<Meeting, Error>(
                    Meeting { timestamp, length },
                ),
                _ => Err::<Meeting, Error>(Error::InvalidTime),
            }),
    {
        match found {
            Instants::Once(timestamp) => {
                if timestamp.is_valid() {
                    Ok(Meeting { timestamp, length })
                } else {
                    Err(Error::InvalidTime)
                }
            },
            _ => Err(Error::InvalidTime),
        }
    }

    /// The meeting of `length` minutes that began today when the local clock
    /// showed `start` o'clock, an hour from 0 to 23. It is an error for the
    /// local clock to skip that hour today or to show it twice, which is for
    /// the time zone to say.
    pub fn today(start: u32, length: u32) -> (r: Result<Meeting, Error>)
        requires
            start <= 23,
        ensures
            r matches Ok(meeting) ==> meeting.wf() && meeting.length == length,
            r matches Err(error) ==> error == Error::InvalidTime,
    {
        Meeting::beginning(at_time(today(), start, 0, 0), length)
    }
}

/// What logging a meeting of `length` minutes that began today at `start`
/// o'clock, an hour from 0 to 23, appends to the log: the line of the record
/// and its newline.
pub fn log(start: u32, length: u32) -> (r: Result<Vec<u8>, Error>)
    requires
        start <= 23,
    ensures
        r matches Ok(bytes) ==> exists|meeting: Meeting|
            meeting.wf() && meeting.length == length && bytes@ == (#[trigger] encoded(
                meeting,
            )).push(newline()),
        r matches Err(error) ==> error == Error::InvalidTime,
{
    match Meeting::today(start, length) {
        Ok(meeting) => Ok(stored_line(&meeting)),
        Err(error) => Err(error),
    }
}

/// The name of the log file in the home directory.
pub open spec fn log_file_name() -> Seq<char> {
    ".meetings"@
}

/// Where the log lies for a user with the home directory `home`: the file
/// `.meetings` in it. Without a home directory there is no log.
pub fn log_path_in(home: Option<PathBuf>) -> (r: Result<PathBuf, Error>)
    ensures
        r == (match home {
            Some(directory) => Ok::<PathBuf, Error>(joined(directory, log_file_name())),
            None => Err::<PathBuf, Error>(Error::NoUserDirs),
        }),
{
    match home {
        Some(directory) => Ok(join(&directory, ".meetings")),
        None => Err(Error::NoUserDirs),
    }
}

/// Where the log of the user lies: the file `.meetings` in the home
/// directory, whichever the system names. It is an error for the system to
/// name none.
pub fn log_path() -> (r: Result<PathBuf, Error>)
    ensures
        r matches Err(error) ==> error == Error::NoUserDirs,
        r matches Ok(path) ==> exists|directory: PathBuf| path == #[trigger] joined(
            directory,
            log_file_name(),
        ),
{
    log_path_in(home_dir())
}

} // verus!
