//! Errors met while reading bencoded data.
use vstd::prelude::*;

verus! {

/// Why bencoded data could not be read.
#[derive(Debug)]
pub enum Error {
    Message(String),
    Eof,
    Syntax,
    ExpectedByteString,
    ExpectedInteger,
    ExpectedList,
    ExpectedMap,
    /// Byte strings have a colon after their length.
    ExpectedColon,
    /// Not all bytes of the input were read.
    LeftoverData,
    ExpectedListEnd,
    ExpectedMapEnd,
}

impl Error {
    /// The text of the error.
    pub fn message(&self) -> (res: String)
        ensures
            res@ == match self {
                Error::Message(msg) => msg@,
                Error::Eof => "Encountered unexpected EOF"@,
                Error::Syntax => "Invalid syntax"@,
                Error::ExpectedMap => "Expected map value"@,
                Error::ExpectedList => "Expected list value"@,
                Error::ExpectedInteger => "Expected integer value"@,
                Error::ExpectedByteString => "Expected byte string value"@,
                Error::ExpectedColon => "Expected colon character"@,
                Error::LeftoverData => "Expected no data leftover"@,
                Error::ExpectedListEnd => "Expected end of list"@,
                Error::ExpectedMapEnd => "Expected end of map"@,
            },
    {
        match self {
            Error::Message(msg) => msg.as_str().to_string(),
            Error::Eof => "Encountered unexpected EOF".to_string(),
            Error::Syntax => "Invalid syntax".to_string(),
            Error::ExpectedMap => "Expected map value".to_string(),
            Error::ExpectedList => "Expected list value".to_string(),
            Error::ExpectedInteger => "Expected integer value".to_string(),
            Error::ExpectedByteString => "Expected byte string value".to_string(),
            Error::ExpectedColon => "Expected colon character".to_string(),
            Error::LeftoverData => "Expected no data leftover".to_string(),
            Error::ExpectedListEnd => "Expected end of list".to_string(),
            Error::ExpectedMapEnd => "Expected end of map".to_string(),
        }
    }
}

} // verus!
