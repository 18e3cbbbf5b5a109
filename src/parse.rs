//! Reading the fields of a request, one at a time.
use vstd::prelude::*;
use vstd::utf8::valid_utf8;

use crate::frame::{Frame, Value};
use crate::number::{atoi_i64, leading_int};
use crate::text::copy_bytes;

verus! {

/// Why the fields of a request do not make a command.
#[derive(Debug, Clone, Copy, PartialEq, Eq, Structural)]
pub enum ParseError {
    /// A field was needed and none was left.
    EndOfStream,
    /// A request must be an array.
    NotAnArray,
    /// A field must be a simple or a bulk string.
    NotText,
    /// A field that names something must be well-formed UTF-8.
    InvalidString,
    /// A field must be an integer, or a string that holds one.
    NotAnInteger,
    /// A string field does not hold an integer that fits.
    InvalidNumber,
    /// Fields were left after the command was complete.
    TrailingFields,
    /// `SET` was given an option other than `EX` or `PX`.
    UnsupportedOption,
    /// A time to live is negative.
    InvalidExpire,
}

impl ParseError {
    /// The text that reports this error to a client.
    pub fn message(&self) -> (r: &'static str)
        ensures
            r@ == match self {
                ParseError::EndOfStream => "protocol error; unexpected end of stream"@,
                ParseError::NotAnArray => "protocol error; expected array"@,
                ParseError::NotText => "protocol error; expected simple frame or bulk frame"@,
                ParseError::InvalidString => "protocol error; invalid string"@,
                ParseError::NotAnInteger => "protocol error; expected int frame"@,
                ParseError::InvalidNumber => "protocol error; invalid number"@,
                ParseError::TrailingFields => "protocol error; expected end of frame, but there was more"@,
                ParseError::UnsupportedOption => "currently `SET` only supports the expiration option"@,
                ParseError::InvalidExpire => "protocol error; invalid expire time"@,
            },
    {
        match self {
            ParseError::EndOfStream => "protocol error; unexpected end of stream",
            ParseError::NotAnArray => "protocol error; expected array",
            ParseError::NotText => "protocol error; expected simple frame or bulk frame",
            ParseError::InvalidString => "protocol error; invalid string",
            ParseError::NotAnInteger => "protocol error; expected int frame",
            ParseError::InvalidNumber => "protocol error; invalid number",
            ParseError::TrailingFields => "protocol error; expected end of frame, but there was more",
            ParseError::UnsupportedOption => "currently `SET` only supports the expiration option",
            ParseError::InvalidExpire => "protocol error; invalid expire time",
        }
    }
}

/// The text a field holds, if it is a simple or a bulk string.
pub open spec fn text_of(v: Value) -> Option<Seq<u8>> {
    match v {
        Value::Simple(s) => Some(s),
        Value::Bulk(b) => Some(b),
        _ => None,
    }
}

/// The string a field holds: its text, which must be well-formed UTF-8.
pub open spec fn string_of(v: Value) -> Result<Seq<u8>, ParseError> {
    match text_of(v) {
        None => Err(ParseError::NotText),
        Some(s) => if valid_utf8(s) {
            Ok(s)
        } else {
            Err(ParseError::InvalidString)
        },
    }
}

/// Relies on `std::str::from_utf8`, which succeeds exactly when the bytes
/// are well-formed UTF-8.
#[verifier::external_body]
fn is_utf8(b: &[u8]) -> (r: bool)
    ensures
        r == valid_utf8(b@),
{
    std::str::from_utf8(b).is_ok()
}

/// The integer a field holds: an integer frame, or a string that `atoi`
/// reads.
pub open spec fn int_of(v: Value) -> Result<int, ParseError> {
    match v {
        Value::Integer(n) => Ok(n),
        Value::Simple(s) => match leading_int(s) {
            Some(n) => Ok(n),
            None => Err(ParseError::InvalidNumber),
        },
        Value::Bulk(s) => match leading_int(s) {
            Some(n) => Ok(n),
            None => Err(ParseError::InvalidNumber),
        },
        _ => Err(ParseError::NotAnInteger),
    }
}

/// A cursor over the fields of a request array.
#[derive(Debug)]
pub struct Parse {
    frames: Vec<Frame>,
    pos: usize,
}

impl Parse {
    /// The fields not read yet.
    pub closed spec fn rest(&self) -> Seq<Value> {
        self.frames@.map_values(|f: Frame| f.scalar_view()).skip(self.pos as int)
    }

    pub closed spec fn inv(&self) -> bool {
        self.pos <= self.frames@.len()
    }

    /// Starts reading the fields of `frame`, which must be an array.
    pub fn new(frame: Frame) -> (r: Result<Parse, ParseError>)
        ensures
            match frame@ {
                Value::Array(items) => r matches Ok(p) && p.inv() && p.rest() == items,
                _ => r == Err::<Parse, ParseError>(ParseError::NotAnArray),
            },
    {
        match frame {
            Frame::Array(frames) => {
                let p = Parse { frames, pos: 0 };
                assert(p.rest() =~= frame@->Array_0);
                Ok(p)
            },
            _ => Err(ParseError::NotAnArray),
        }
    }

    /// The next field, as a string: its UTF-8 bytes.
    pub fn next_string(&mut self) -> (r: Result<Vec<u8>, ParseError>)
        requires
            old(self).inv(),
        ensures
            final(self).inv(),
            old(self).rest().len() == 0 ==> r == Err::<Vec<u8>, ParseError>(ParseError::EndOfStream)
                && final(self).rest() == old(self).rest(),
            old(self).rest().len() > 0 ==> final(self).rest() == old(self).rest().drop_first() && match string_of(
                old(self).rest()[0],
            ) {
                Ok(s) => r matches Ok(v) && v@ == s,
                Err(e) => r == Err::<Vec<u8>, ParseError>(e),
            },
    {
        let r = self.next_bytes();
        match r {
            Ok(v) => if is_utf8(v.as_slice()) {
                Ok(v)
            } else {
                Err(ParseError::InvalidString)
            },
            Err(e) => Err(e),
        }
    }

    /// The next field, as bytes.
    pub fn next_bytes(&mut self) -> (r: Result<Vec<u8>, ParseError>)
        requires
            old(self).inv(),
        ensures
            final(self).inv(),
            old(self).rest().len() == 0 ==> r == Err::<Vec<u8>, ParseError>(ParseError::EndOfStream)
                && final(self).rest() == old(self).rest(),
            old(self).rest().len() > 0 ==> final(self).rest() == old(self).rest().drop_first() && match text_of(
                old(self).rest()[0],
            ) {
                Some(s) => r matches Ok(v) && v@ == s,
                None => r == Err::<Vec<u8>, ParseError>(ParseError::NotText),
            },
    {
        if self.pos == self.frames.len() {
            return Err(ParseError::EndOfStream);
        }
        let ghost rest0 = self.rest();
        let r = match &self.frames[self.pos] {
            Frame::SimpleString(s) => Ok(copy_bytes(s.as_slice())),
            Frame::BulkString(b) => Ok(copy_bytes(b.as_slice())),
            _ => Err(ParseError::NotText),
        };
        self.pos = self.pos + 1;
        assert(self.rest() =~= rest0.drop_first());
        r
    }

    /// The next field, as an integer.
    pub fn next_int(&mut self) -> (r: Result<i64, ParseError>)
        requires
            old(self).inv(),
        ensures
            final(self).inv(),
            old(self).rest().len() == 0 ==> r == Err::<i64, ParseError>(ParseError::EndOfStream)
                && final(self).rest() == old(self).rest(),
            old(self).rest().len() > 0 ==> final(self).rest() == old(self).rest().drop_first() && match int_of(
                old(self).rest()[0],
            ) {
                Ok(n) => r matches Ok(v) && v == n,
                Err(e) => r == Err::<i64, ParseError>(e),
            },
    {
        if self.pos == self.frames.len() {
            return Err(ParseError::EndOfStream);
        }
        let ghost rest0 = self.rest();
        let r = match &self.frames[self.pos] {
            Frame::Integer(n) => Ok(*n),
            Frame::SimpleString(s) => match atoi_i64(s.as_slice()) {
                Some(n) => Ok(n),
                None => Err(ParseError::InvalidNumber),
            },
            Frame::BulkString(b) => match atoi_i64(b.as_slice()) {
                Some(n) => Ok(n),
                None => Err(ParseError::InvalidNumber),
            },
            _ => Err(ParseError::NotAnInteger),
        };
        self.pos = self.pos + 1;
        assert(self.rest() =~= rest0.drop_first());
        r
    }

    /// Checks that every field has been read.
    pub fn finish(&mut self) -> (r: Result<(), ParseError>)
        requires
            old(self).inv(),
        ensures
            final(self).inv(),
            final(self).rest() == old(self).rest(),
            r is Ok <==> old(self).rest().len() == 0,
            r is Err ==> r == Err::<(), ParseError>(ParseError::TrailingFields),
    {
        if self.pos == self.frames.len() {
            Ok(())
        } else {
            Err(ParseError::TrailingFields)
        }
    }
}

} // verus!
