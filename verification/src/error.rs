//! The error type shared by both directions.

use vstd::prelude::*;

verus! {

/// Why a conversion failed. One call reports at most one of these.
#[derive(Debug, Clone, Copy, PartialEq, Eq, Structural)]
pub enum Error {
    /// The timestamp lies in a year that, counted from 1900, does not fit
    /// in 32 bits, so that it cannot be written.
    TimestampToTmError,
    /// The text does not have the shape that the format string describes.
    DateTimeParseError,
    /// The civil time lies outside what a 64-bit timestamp can count.
    TimestampOverflowError,
    /// A string argument holds a NUL byte.
    FormatError,
}

impl Error {
    /// The sentence that describes each variant.
    pub open spec fn message_text(self) -> Seq<char> {
        match self {
            Error::TimestampToTmError => "Error converting timestamp to C tm."@,
            Error::DateTimeParseError => "Error parsing date time."@,
            Error::TimestampOverflowError => "Timestamp overflow error"@,
            Error::FormatError => "Formatting error"@,
        }
    }

    /// A human-readable description of the error.
    pub fn message(&self) -> (s: &'static str)
        ensures
            s@ == self.message_text(),
    {
        match self {
            Error::TimestampToTmError => "Error converting timestamp to C tm.",
            Error::DateTimeParseError => "Error parsing date time.",
            Error::TimestampOverflowError => "Timestamp overflow error",
            Error::FormatError => "Formatting error",
        }
    }
}

} // verus!
