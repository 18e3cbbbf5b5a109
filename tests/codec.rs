use redis_lite::connection::{Connection, ConnectionError};
use redis_lite::decode::{decode, FrameError};
use redis_lite::frame::{encode, Frame};
use redis_lite::number::{parse_decimal, write_decimal};

fn sample_frames() -> Vec<Frame> {
    vec![
        Frame::SimpleString(b"OK".to_vec()),
        Frame::Error(b"ERR bad".to_vec()),
        Frame::Integer(0),
        Frame::Integer(-42),
        Frame::Integer(i64::MAX),
        Frame::Integer(i64::MIN),
        Frame::BulkString(b"hello".to_vec()),
        Frame::BulkString(Vec::new()),
        Frame::BulkString(b"a\r\nb".to_vec()),
        Frame::Null,
        Frame::Array(Vec::new()),
        Frame::Array(vec![
            Frame::BulkString(b"SET".to_vec()),
            Frame::SimpleString(b"x".to_vec()),
            Frame::Integer(7),
            Frame::Null,
        ]),
    ]
}

#[test]
fn encodes_each_frame_type() {
    assert_eq!(b"+OK\r\n", &encode(&Frame::SimpleString(b"OK".to_vec()))[..]);
    assert_eq!(b"-ERR bad\r\n", &encode(&Frame::Error(b"ERR bad".to_vec()))[..]);
    assert_eq!(b":-42\r\n", &encode(&Frame::Integer(-42))[..]);
    assert_eq!(b":-9223372036854775808\r\n", &encode(&Frame::Integer(i64::MIN))[..]);
    assert_eq!(b"$-1\r\n", &encode(&Frame::Null)[..]);
    assert_eq!(b"$5\r\nhello\r\n", &encode(&Frame::BulkString(b"hello".to_vec()))[..]);
    assert_eq!(b"$0\r\n\r\n", &encode(&Frame::BulkString(Vec::new()))[..]);
    let a = Frame::Array(vec![Frame::BulkString(b"GET".to_vec()), Frame::BulkString(b"k".to_vec())]);
    assert_eq!(b"*2\r\n$3\r\nGET\r\n$1\r\nk\r\n", &encode(&a)[..]);
}

#[test]
fn round_trip_every_sample() {
    for f in sample_frames() {
        let bytes = encode(&f);
        let (g, n) = decode(&bytes).unwrap().unwrap();
        assert_eq!(bytes.len(), n);
        assert_eq!(bytes, encode(&g));
    }
}

#[test]
fn every_proper_prefix_is_incomplete() {
    for f in sample_frames() {
        let bytes = encode(&f);
        for cut in 0..bytes.len() {
            assert!(matches!(decode(&bytes[..cut]), Ok(None)), "cut {} of {:?}", cut, f);
        }
    }
}

#[test]
fn pipelined_frames_decode_in_order() {
    let mut bytes = b"*2\r\n$3\r\nGET\r\n$1\r\na\r\n".to_vec();
    bytes.extend_from_slice(b"*2\r\n$3\r\nGET\r\n$1\r\nb\r\n");
    let (first, n) = decode(&bytes).unwrap().unwrap();
    assert_eq!(20, n);
    assert_eq!(b"*2\r\n$3\r\nGET\r\n$1\r\na\r\n".to_vec(), encode(&first));
    let (second, m) = decode(&bytes[n..]).unwrap().unwrap();
    assert_eq!(20, m);
    assert_eq!(b"*2\r\n$3\r\nGET\r\n$1\r\nb\r\n".to_vec(), encode(&second));
}

#[test]
fn chunked_reads_give_the_same_frame() {
    let whole = b"*3\r\n$3\r\nSET\r\n$5\r\nhello\r\n$5\r\nworld\r\n*1\r\n$3\r\nGET\r\n";
    let mut conn = Connection::new();
    let mut frames = Vec::new();
    for chunk in whole.chunks(3) {
        conn.receive(chunk);
        while let Some(f) = conn.parse_frame().unwrap() {
            frames.push(encode(&f));
        }
    }
    assert_eq!(2, frames.len());
    assert_eq!(b"*3\r\n$3\r\nSET\r\n$5\r\nhello\r\n$5\r\nworld\r\n".to_vec(), frames[0]);
    assert_eq!(b"*1\r\n$3\r\nGET\r\n".to_vec(), frames[1]);
    assert!(conn.read_end().is_ok());
}

#[test]
fn end_of_stream_inside_a_frame_is_a_reset() {
    let mut conn = Connection::new();
    conn.receive(b"*2\r\n$3\r\nGE");
    assert!(matches!(conn.parse_frame(), Ok(None)));
    assert_eq!(Err(ConnectionError::ResetByPeer), conn.read_end());
}

#[test]
fn decode_errors() {
    assert_eq!(Err(FrameError::UnknownType(b'x')), decode(b"x\r\n").map(|_| ()));
    assert_eq!(Err(FrameError::UnknownType(b'*')), decode(b"*1\r\n*0\r\n").map(|_| ()));
    assert_eq!(Err(FrameError::BadLine), decode(b"+a\nb\r\n").map(|_| ()));
    assert_eq!(Err(FrameError::BadLine), decode(b"+a\rb\r\n").map(|_| ()));
    assert_eq!(Err(FrameError::BadNumber), decode(b":007\r\n").map(|_| ()));
    assert_eq!(Err(FrameError::BadNumber), decode(b":-0\r\n").map(|_| ()));
    assert_eq!(Err(FrameError::BadNumber), decode(b":9223372036854775808\r\n").map(|_| ()));
    assert_eq!(Err(FrameError::BadLength), decode(b"$-2\r\n").map(|_| ()));
    assert_eq!(Err(FrameError::BadLength), decode(b"*-1\r\n").map(|_| ()));
    assert_eq!(Err(FrameError::BadTerminator), decode(b"$1\r\nab\r\n").map(|_| ()));
    let mut conn = Connection::new();
    conn.receive(b"?\r\n");
    assert_eq!(Err(ConnectionError::Protocol(FrameError::UnknownType(b'?'))), conn.parse_frame().map(|_| ()));
}

#[test]
fn decimal_forms() {
    let mut out = Vec::new();
    write_decimal(&mut out, 1234567890);
    assert_eq!(b"1234567890\r\n", &out[..]);
    let mut out = Vec::new();
    write_decimal(&mut out, i64::MIN);
    assert_eq!(b"-9223372036854775808\r\n", &out[..]);
    assert_eq!(Some(-17), parse_decimal(b"-17"));
    assert_eq!(Some(i64::MIN), parse_decimal(b"-9223372036854775808"));
    assert_eq!(Some(0), parse_decimal(b"0"));
    assert_eq!(None, parse_decimal(b"+1"));
    assert_eq!(None, parse_decimal(b"01"));
    assert_eq!(None, parse_decimal(b""));
    assert_eq!(None, parse_decimal(b"-"));
    assert_eq!(None, parse_decimal(b"12a"));
}

#[test]
fn bytes_that_can_never_become_a_frame_are_errors() {
    assert_eq!(Err(FrameError::BadNumber), decode(b"*-").map(|_| ()));
    assert_eq!(Err(FrameError::BadNumber), decode(b":01").map(|_| ()));
    assert_eq!(Err(FrameError::BadNumber), decode(b":-0").map(|_| ()));
    assert_eq!(Err(FrameError::BadNumber), decode(b"$-2").map(|_| ()));
    assert_eq!(Err(FrameError::BadNumber), decode(b"$x").map(|_| ()));
    assert_eq!(Err(FrameError::BadNumber), decode(b"$x\r\n").map(|_| ()));
    assert_eq!(Err(FrameError::BadNumber), decode(b":99999999999999999999").map(|_| ()));
    assert_eq!(Err(FrameError::BadTerminator), decode(b"$2\r\nabX").map(|_| ()));
    assert_eq!(Err(FrameError::BadNumber), decode(b"*1\r\n:0x").map(|_| ()));
}

#[test]
fn bytes_that_may_still_become_a_frame_wait() {
    for partial in [
        &b""[..], b"*", b"*0", b"*12", b"$", b"$-", b"$-1", b"$-1\r", b"$3\r\nab", b"$2\r\nab\r",
        b":", b":-", b":-9223372036854775808", b"+te", b"+text\r", b"*2\r\n$1\r\na\r\n:",
    ] {
        assert!(matches!(decode(partial), Ok(None)), "{:?}", partial);
    }
}
