//! A cursor over bencoded bytes that reads one value at a time.
use vstd::prelude::*;

use super::error::Error;
use crate::digits::scan_signed;
use crate::parse::{spec_byte_string, spec_integer};
use crate::value::{BValue, Outcome};
use vstd::slice::slice_subrange;

verus! {

/// Reads bencoded data from the front of its input.
pub struct Deserialiser<'de> {
    /// The bytes not read yet.
    input: &'de [u8],
}

impl<'de> View for Deserialiser<'de> {
    type V = Seq<u8>;

    closed spec fn view(&self) -> Seq<u8> {
        self.input@
    }
}

/// The text of the error for input that does not start with an integer.
pub open spec fn integer_error() -> Seq<char> {
    "Failed to parse integer"@
}

/// The text of the error for input that does not start with a byte string.
pub open spec fn byte_string_error() -> Seq<char> {
    "Failed to parse byte string"@
}

impl<'de> Deserialiser<'de> {
    /// A cursor at the start of `input`.
    pub fn from_bytes(input: &'de [u8]) -> (res: Deserialiser<'de>)
        ensures
            res@ == input@,
    {
        Deserialiser { input }
    }

    /// The next byte, left unread.
    pub fn peek_byte(&mut self) -> (res: Result<u8, Error>)
        ensures
            final(self)@ == old(self)@,
            match res {
                Ok(b) => old(self)@.len() > 0 && b == old(self)@[0],
                Err(e) => old(self)@.len() == 0 && e is Eof,
            },
    {
        if self.input.len() > 0 {
            Ok(self.input[0])
        } else {
            Err(Error::Eof)
        }
    }

    /// The next byte, which is read.
    pub fn next_byte(&mut self) -> (res: Result<u8, Error>)
        ensures
            match res {
                Ok(b) => old(self)@.len() > 0 && b == old(self)@[0] && final(self)@ == old(self)@.drop_first(),
                Err(e) => old(self)@.len() == 0 && e is Eof && final(self)@ == old(self)@,
            },
    {
        if self.input.len() == 0 {
            return Err(Error::Eof);
        }
        let input = self.input;
        let first = input[0];
        self.input = slice_subrange(input, 1, input.len());
        proof {
            assert(self.input@ =~= old(self)@.drop_first());
        }
        Ok(first)
    }

    /// Reads the integer at the front of the input.
    pub fn parse_integer(&mut self) -> (res: Result<i64, Error>)
        ensures
            match spec_integer(old(self)@, 0) {
                Outcome::Parsed(BValue::Int(v), q) => res == Ok::<i64, Error>(v as i64) && final(self)@
                    == old(self)@.subrange(q, old(self)@.len() as int),
                _ => res matches Err(Error::Message(msg)) && msg@ == integer_error() && final(self)@
                    == old(self)@,
            },
    {
        let input = self.input;
        if input.len() > 0 && input[0] == 105 {
            match scan_signed(input, 1) {
                Some((v, q)) => {
                    if q < input.len() && input[q] == 101 {
                        self.input = slice_subrange(input, q + 1, input.len());
                        return Ok(v);
                    }
                },
                None => {},
            }
        }
        Err(Error::Message("Failed to parse integer".to_string()))
    }

    /// Reads the byte string at the front of the input.
    pub fn parse_byte_string(&mut self) -> (res: Result<&'de [u8], Error>)
        requires
            !(spec_byte_string(old(self)@, 0) is Abort),
        ensures
            match spec_byte_string(old(self)@, 0) {
                Outcome::Parsed(BValue::Bytes(b), q) => res matches Ok(r) && r@ == b && final(self)@
                    == old(self)@.subrange(q, old(self)@.len() as int),
                _ => res matches Err(Error::Message(msg)) && msg@ == byte_string_error() && final(self)@
                    == old(self)@,
            },
    {
        let input = self.input;
        match scan_signed(input, 0) {
            Some((len, q)) => {
                if q < input.len() && input[q] == 58 {
                    let start = q + 1;
                    let end = start + len as usize;
                    let bytes = slice_subrange(input, start, end);
                    self.input = slice_subrange(input, end, input.len());
                    return Ok(bytes);
                }
            },
            None => {},
        }
        Err(Error::Message("Failed to parse byte string".to_string()))
    }
}

} // verus!
