//! The failures an engine operation can report.

use vstd::prelude::*;
use vstd::string::StringExecFns;

verus! {

/// Why an operation was refused.
#[derive(Debug, Clone, Copy, PartialEq, Eq, Structural)]
pub enum Error {
    /// An unknown meta-command or statement verb.
    UnrecognizedCommand,
    /// A malformed statement, values that do not fit the schema, or a row
    /// that is not there or cannot be decoded.
    ParseError,
    /// The table already holds as many rows as it may.
    RowLimit,
    /// A page is not to be had: the file ends before it, its first byte
    /// names no kind, or it is not the leaf that the table expects.
    IOError,
    /// The table header is of no use, or its encoding does not fit the
    /// region that the file has for it.
    SerializationError,
}

impl Error {
    /// What to tell the user.
    pub fn message(&self) -> (text: String)
        ensures
            text@ == match self {
                Error::UnrecognizedCommand => "Unrecognized Command"@,
                Error::ParseError => "Parse Error"@,
                Error::RowLimit => "Max number of rows for this table is reached"@,
                Error::IOError => "IO Error"@,
                Error::SerializationError => "Serialization Error"@,
            },
    {
        match self {
            Error::UnrecognizedCommand => String::from_str("Unrecognized Command"),
            Error::ParseError => String::from_str("Parse Error"),
            Error::RowLimit => String::from_str("Max number of rows for this table is reached"),
            Error::IOError => String::from_str("IO Error"),
            Error::SerializationError => String::from_str("Serialization Error"),
        }
    }
}

} // verus!
