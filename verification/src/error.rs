//! What can go wrong short of reading and writing the log file.

use vstd::prelude::*;

verus! {

/// Why a command could not be carried out.
#[derive(Clone, Copy, Debug, PartialEq, Eq, Structural)]
pub enum Error {
    /// The system names no home directory for the user.
    NoUserDirs,
    /// A date is no day of the calendar, or does not begin in the local time
    /// zone.
    InvalidDate,
    /// The local time zone has no single instant for an hour of today, or
    /// one that the log cannot hold.
    InvalidTime,
}

impl Error {
    /// The message that tells the user of the error.
    pub fn message(self) -> (text: &'static str)
        ensures
            text@ == (match self {
                Error::NoUserDirs => "Unable to access user directories"@,
                Error::InvalidDate => "Invalid date"@,
                Error::InvalidTime => "Invalid time"@,
            }),
    {
        match self {
            Error::NoUserDirs => "Unable to access user directories",
            Error::InvalidDate => "Invalid date",
            Error::InvalidTime => "Invalid time",
        }
    }
}

} // verus!
