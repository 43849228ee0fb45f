//! The kinds of failure that the engine reports.
use vstd::prelude::*;

verus! {

/// Why an operation on a table, a record file or a field failed.
#[derive(Clone, Copy, Debug, PartialEq, Eq, Structural)]
pub enum DbError {
    /// The operating system refused a read or a write. The engine never
    /// raises it on its own; a caller that mirrors the images to disk does.
    Io,
    /// A row position lies past the end of the record file.
    OutOfBounds,
    /// The size of a file is not a multiple of the record width.
    Corrupt,
    /// The bytes of a field break a rule of its type, such as a side-file
    /// identifier of zero or a payload that is not UTF-8.
    MalformedRecord,
    /// A record refers to a side file that does not exist.
    MissingSideFile,
    /// Two keys could not be compared.
    ComparatorFailure,
    /// The stored data break an invariant of the table, such as two rows
    /// with one primary key.
    ConsistencyViolation,
    /// No row has the primary key that was asked for.
    NotFound,
}

impl DbError {
    /// A short text for the error, for messages.
    pub fn message(&self) -> (text: &'static str)
        ensures
            text@ == error_text(*self),
    {
        match self {
            DbError::Io => "input or output failed",
            DbError::OutOfBounds => "index past the end of the file",
            DbError::Corrupt => "file size is not a multiple of the record size",
            DbError::MalformedRecord => "malformed record",
            DbError::MissingSideFile => "side file is missing",
            DbError::ComparatorFailure => "keys cannot be compared",
            DbError::ConsistencyViolation => "stored data are inconsistent",
            DbError::NotFound => "no row has this key",
        }
    }
}

/// The text that [`DbError::message`] gives for each kind.
pub open spec fn error_text(e: DbError) -> Seq<char> {
    match e {
        DbError::Io => "input or output failed"@,
        DbError::OutOfBounds => "index past the end of the file"@,
        DbError::Corrupt => "file size is not a multiple of the record size"@,
        DbError::MalformedRecord => "malformed record"@,
        DbError::MissingSideFile => "side file is missing"@,
        DbError::ComparatorFailure => "keys cannot be compared"@,
        DbError::ConsistencyViolation => "stored data are inconsistent"@,
        DbError::NotFound => "no row has this key"@,
    }
}

} // verus!
