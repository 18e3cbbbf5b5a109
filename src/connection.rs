//! The read side of a connection: bytes come in as the socket yields them,
//! and whole frames come out.
use vstd::prelude::*;

use crate::decode::{
    cut_at, decodable, decode, decode_post, is_frame_tag, lemma_no_frame_is_error, starts_at, FrameError,
};
use crate::frame::{encode_value, Frame, Value};

verus! {

/// Why a connection stops yielding frames.
#[derive(Debug, Clone, Copy, PartialEq, Eq)]
pub enum ConnectionError {
    /// The peer closed the stream in the middle of a frame.
    ResetByPeer,
    /// The bytes received do not start a frame.
    Protocol(FrameError),
}

/// The bytes received on a connection and not yet read as frames.
#[derive(Debug)]
pub struct Connection {
    buffer: Vec<u8>,
}

impl View for Connection {
    type V = Seq<u8>;

    closed spec fn view(&self) -> Seq<u8> {
        self.buffer@
    }
}

impl Connection {
    /// A connection with nothing received yet.
    pub fn new() -> (r: Connection)
        ensures
            r@ == Seq::<u8>::empty(),
    {
        Connection { buffer: Vec::with_capacity(4 * 1024) }
    }

    /// Adds bytes that the socket yielded.
    pub fn receive(&mut self, data: &[u8])
        ensures
            final(self)@ == old(self)@ + data@,
    {
        let mut i: usize = 0;
        while i < data.len()
            invariant
                i <= data@.len(),
                self@ == old(self)@ + data@.take(i as int),
            decreases data@.len() - i,
        {
            self.buffer.push(data[i]);
            i = i + 1;
            assert(self@ =~= old(self)@ + data@.take(i as int));
        }
        assert(data@.take(i as int) =~= data@);
    }

    /// Takes the first whole frame out of the bytes received, and keeps the
    /// bytes after it for the next call. `Ok(None)`: no whole frame yet,
    /// nothing taken.
    pub fn parse_frame(&mut self) -> (r: Result<Option<Frame>, ConnectionError>)
        ensures
            match r {
                Ok(Some(f)) => f.wf() && decodable(f@) && encode_value(f@).len() <= old(self)@.len()
                    && old(self)@.take(encode_value(f@).len() as int) == encode_value(f@) && final(self)@
                    == old(self)@.skip(encode_value(f@).len() as int),
                _ => final(self)@ == old(self)@,
            },
            forall|v: Value|
                decodable(v) && #[trigger] starts_at(old(self)@, 0, encode_value(v)) ==> (r matches Ok(
                    Some(f),
                ) && f@ == v),
            forall|v: Value|
                decodable(v) && #[trigger] cut_at(old(self)@, 0, encode_value(v)) ==> r == Ok::<
                    Option<Frame>,
                    ConnectionError,
                >(None),
            old(self)@.len() > 0 && !is_frame_tag(old(self)@[0]) ==> r == Err::<Option<Frame>, ConnectionError>(
                ConnectionError::Protocol(FrameError::UnknownType(old(self)@[0])),
            ),
            r == Ok::<Option<Frame>, ConnectionError>(None) ==> exists|v: Value|
                decodable(v) && #[trigger] cut_at(old(self)@, 0, encode_value(v)),
            (forall|v: Value|
                decodable(v) ==> !#[trigger] starts_at(old(self)@, 0, encode_value(v)) && !cut_at(
                    old(self)@,
                    0,
                    encode_value(v),
                )) ==> r is Err,
            r matches Err(e) ==> e is Protocol,
    {
        let d = decode(self.buffer.as_slice());
        proof {
            assert(decode_post(self@, d));
            if forall|v: Value|
                decodable(v) ==> !#[trigger] starts_at(self@, 0, encode_value(v)) && !cut_at(self@, 0, encode_value(v)) {
                lemma_no_frame_is_error(self@, d);
            }
        }
        match d {
            Err(e) => Err(ConnectionError::Protocol(e)),
            Ok(None) => Ok(None),
            Ok(Some((f, n))) => {
                let len = self.buffer.len();
                let mut rest: Vec<u8> = Vec::new();
                let mut i: usize = n;
                while i < len
                    invariant
                        n <= i <= len,
                        len == self.buffer@.len(),
                        rest@ == self.buffer@.subrange(n as int, i as int),
                    decreases len - i,
                {
                    rest.push(self.buffer[i]);
                    i = i + 1;
                    assert(rest@ =~= self.buffer@.subrange(n as int, i as int));
                }
                self.buffer = rest;
                assert(self@ =~= old(self)@.skip(n as int));
                Ok(Some(f))
            },
        }
    }

    /// What the end of the stream means: a clean close when nothing is left
    /// unread, a reset otherwise.
    pub fn read_end(&self) -> (r: Result<(), ConnectionError>)
        ensures
            r is Ok <==> self@.len() == 0,
            r is Err ==> r == Err::<(), ConnectionError>(ConnectionError::ResetByPeer),
    {
        if self.buffer.len() == 0 {
            Ok(())
        } else {
            Err(ConnectionError::ResetByPeer)
        }
    }
}

} // verus!
