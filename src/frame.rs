//! Wire-protocol values and their byte encoding.
use vstd::prelude::*;

use crate::number::{decimal, write_count, write_decimal};

verus! {

/// One wire-protocol value.
#[derive(Debug)]
pub enum Frame {
    SimpleString(Vec<u8>),
    Error(Vec<u8>),
    Integer(i64),
    BulkString(Vec<u8>),
    Null,
    Array(Vec<Frame>),
}

/// The mathematical model of a frame.
pub enum Value {
    Simple(Seq<u8>),
    Error(Seq<u8>),
    Integer(int),
    Bulk(Seq<u8>),
    Null,
    Array(Seq<Value>),
}

pub open spec fn crlf() -> Seq<u8> {
    seq![13u8, 10u8]
}

/// Text that may stand on one line: no carriage return, no line feed.
pub open spec fn is_line_text(s: Seq<u8>) -> bool {
    forall|i: int| 0 <= i < s.len() ==> #[trigger] s[i] != 13u8 && s[i] != 10u8
}

impl Value {
    pub open spec fn is_scalar_wf(self) -> bool {
        match self {
            Value::Simple(s) => is_line_text(s),
            Value::Error(s) => is_line_text(s),
            Value::Integer(v) => crate::number::is_i64(v),
            Value::Bulk(_) => true,
            Value::Null => true,
            Value::Array(_) => false,
        }
    }

    /// A value that can be encoded: arrays hold scalars only.
    pub open spec fn wf(self) -> bool {
        match self {
            Value::Array(items) => forall|i: int| 0 <= i < items.len() ==> (#[trigger] items[i]).is_scalar_wf(),
            _ => self.is_scalar_wf(),
        }
    }
}

/// The bytes of a scalar value.
pub open spec fn encode_scalar(v: Value) -> Seq<u8> {
    match v {
        Value::Simple(s) => seq![43u8] + s + crlf(),
        Value::Error(s) => seq![45u8] + s + crlf(),
        Value::Integer(n) => seq![58u8] + decimal(n) + crlf(),
        Value::Bulk(b) => seq![36u8] + decimal(b.len() as int) + crlf() + b + crlf(),
        Value::Null => seq![36u8, 45u8, 49u8, 13u8, 10u8],
        Value::Array(_) => Seq::empty(),
    }
}

/// The bytes of a sequence of scalars, one after another.
pub open spec fn encode_all(items: Seq<Value>) -> Seq<u8>
    decreases items.len(),
{
    if items.len() == 0 {
        Seq::empty()
    } else {
        encode_all(items.drop_last()) + encode_scalar(items.last())
    }
}

/// The bytes of a value.
pub open spec fn encode_value(v: Value) -> Seq<u8> {
    match v {
        Value::Array(items) => seq![42u8] + decimal(items.len() as int) + crlf() + encode_all(items),
        _ => encode_scalar(v),
    }
}

impl Frame {
    /// The model of a frame that is not an array; an array stands for an
    /// empty array here.
    pub open spec fn scalar_view(&self) -> Value {
        match self {
            Frame::SimpleString(s) => Value::Simple(s@),
            Frame::Error(s) => Value::Error(s@),
            Frame::Integer(n) => Value::Integer(*n as int),
            Frame::BulkString(b) => Value::Bulk(b@),
            Frame::Null => Value::Null,
            Frame::Array(_) => Value::Array(Seq::empty()),
        }
    }

    pub open spec fn is_scalar(&self) -> bool {
        !(self is Array)
    }

    /// A frame that can be encoded: texts fit on a line and arrays hold no
    /// arrays.
    pub open spec fn wf(&self) -> bool {
        match self {
            Frame::Array(items) => forall|i: int|
                0 <= i < items@.len() ==> (#[trigger] items@[i]).is_scalar() && items@[i].scalar_view().is_scalar_wf(),
            _ => self.scalar_view().is_scalar_wf(),
        }
    }
}

impl View for Frame {
    type V = Value;

    open spec fn view(&self) -> Value {
        match self {
            Frame::Array(items) => Value::Array(items@.map_values(|f: Frame| f.scalar_view())),
            _ => self.scalar_view(),
        }
    }
}

/// Whether `text` may stand on one line.
fn is_line(text: &Vec<u8>) -> (r: bool)
    ensures
        r == is_line_text(text@),
{
    let mut i: usize = 0;
    while i < text.len()
        invariant
            i <= text@.len(),
            forall|j: int| 0 <= j < i ==> #[trigger] text@[j] != 13u8 && text@[j] != 10u8,
        decreases text@.len() - i,
    {
        if text[i] == 13u8 || text[i] == 10u8 {
            return false;
        }
        i = i + 1;
    }
    true
}

impl Frame {
    fn is_encodable_scalar(&self) -> (r: bool)
        ensures
            r == (self.is_scalar() && self.scalar_view().is_scalar_wf()),
    {
        match self {
            Frame::SimpleString(s) => is_line(s),
            Frame::Error(s) => is_line(s),
            Frame::Array(_) => false,
            _ => true,
        }
    }

    /// Whether the frame has an encoding: its texts fit on a line and no
    /// array holds an array.
    pub fn is_encodable(&self) -> (r: bool)
        ensures
            r == self.wf(),
    {
        match self {
            Frame::Array(items) => {
                let mut i: usize = 0;
                while i < items.len()
                    invariant
                        i <= items@.len(),
                        *self == Frame::Array(*items),
                        forall|j: int|
                            0 <= j < i ==> (#[trigger] items@[j]).is_scalar() && items@[j].scalar_view().is_scalar_wf(),
                    decreases items@.len() - i,
                {
                    if !items[i].is_encodable_scalar() {
                        assert(!(items@[i as int].is_scalar() && items@[i as int].scalar_view().is_scalar_wf()));
                        return false;
                    }
                    i = i + 1;
                }
                true
            },
            _ => self.is_encodable_scalar(),
        }
    }
}

/// Appends a line of text and its terminator.
fn write_line(dst: &mut Vec<u8>, tag: u8, text: &Vec<u8>)
    ensures
        final(dst)@ == old(dst)@ + seq![tag] + text@ + crlf(),
{
    dst.push(tag);
    let mut i: usize = 0;
    while i < text.len()
        invariant
            i <= text@.len(),
            dst@ == old(dst)@ + seq![tag] + text@.take(i as int),
        decreases text@.len() - i,
    {
        dst.push(text[i]);
        i = i + 1;
        assert(dst@ =~= old(dst)@ + seq![tag] + text@.take(i as int));
    }
    dst.push(13u8);
    dst.push(10u8);
    assert(text@.take(i as int) =~= text@);
    assert(dst@ =~= old(dst)@ + seq![tag] + text@ + crlf());
}

/// Appends the bytes of a frame that is not an array.
pub fn write_value(dst: &mut Vec<u8>, frame: &Frame)
    requires
        frame.is_scalar(),
    ensures
        final(dst)@ == old(dst)@ + encode_scalar(frame@),
{
    match frame {
        Frame::SimpleString(s) => {
            write_line(dst, 43u8, s);
        },
        Frame::Error(s) => {
            write_line(dst, 45u8, s);
        },
        Frame::Integer(n) => {
            dst.push(58u8);
            write_decimal(dst, *n);
            assert(dst@ =~= old(dst)@ + encode_scalar(frame@));
        },
        Frame::Null => {
            dst.push(36u8);
            dst.push(45u8);
            dst.push(49u8);
            dst.push(13u8);
            dst.push(10u8);
            assert(dst@ =~= old(dst)@ + encode_scalar(frame@));
        },
        Frame::BulkString(b) => {
            dst.push(36u8);
            write_count(dst, b.len());
            let ghost mid = dst@;
            let mut i: usize = 0;
            while i < b.len()
                invariant
                    i <= b@.len(),
                    dst@ == mid + b@.take(i as int),
                decreases b@.len() - i,
            {
                dst.push(b[i]);
                i = i + 1;
                assert(dst@ =~= mid + b@.take(i as int));
            }
            assert(b@.take(i as int) =~= b@);
            dst.push(13u8);
            dst.push(10u8);
            assert(dst@ =~= old(dst)@ + encode_scalar(frame@));
        },
        Frame::Array(_) => {},
    }
}

/// Appends the bytes of a frame. An array inside an array has no encoding:
/// such a frame is not well formed, and `requires` leaves it out.
pub fn write_frame(dst: &mut Vec<u8>, frame: &Frame)
    requires
        frame.wf(),
    ensures
        final(dst)@ == old(dst)@ + encode_value(frame@),
{
    match frame {
        Frame::Array(items) => {
            dst.push(42u8);
            write_count(dst, items.len());
            let ghost head = dst@;
            let ghost model = frame@->Array_0;
            let mut i: usize = 0;
            while i < items.len()
                invariant
                    i <= items@.len(),
                    frame.wf(),
                    *frame == Frame::Array(*items),
                    model == items@.map_values(|f: Frame| f.scalar_view()),
                    dst@ == head + encode_all(model.take(i as int)),
                decreases items@.len() - i,
            {
                write_value(dst, &items[i]);
                assert(model.take(i + 1).drop_last() =~= model.take(i as int));
                i = i + 1;
            }
            assert(model.take(i as int) =~= model);
            assert(dst@ =~= old(dst)@ + encode_value(frame@));
        },
        _ => {
            write_value(dst, frame);
        },
    }
}

/// The bytes of a frame.
pub fn encode(frame: &Frame) -> (r: Vec<u8>)
    requires
        frame.wf(),
    ensures
        r@ == encode_value(frame@),
{
    let mut dst: Vec<u8> = Vec::new();
    write_frame(&mut dst, frame);
    assert(dst@ =~= encode_value(frame@));
    dst
}

} // verus!
