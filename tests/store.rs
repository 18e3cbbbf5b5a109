use redis_lite::command::{Command, Get, SetValue, Unknown};
use redis_lite::db::Db;
use redis_lite::frame::{encode, Frame};
use redis_lite::parse::{Parse, ParseError};

fn request(words: &[&str]) -> Frame {
    Frame::Array(words.iter().map(|w| Frame::BulkString(w.as_bytes().to_vec())).collect())
}

#[test]
fn get_on_a_fresh_store_is_absent() {
    let db = Db::new();
    assert_eq!(None, db.get(b"missing"));
}

#[test]
fn set_then_get() {
    let mut db = Db::new();
    db.set(b"k".to_vec(), b"v".to_vec(), None, 0);
    assert_eq!(Some(b"v".to_vec()), db.get(b"k"));
}

#[test]
fn ttl_expiry() {
    let mut db = Db::new();
    assert!(db.set(b"k".to_vec(), b"v".to_vec(), Some(1000), 0));
    assert_eq!(Some(1000), db.purge_expired_keys(999));
    assert_eq!(Some(b"v".to_vec()), db.get(b"k"));
    assert_eq!(None, db.purge_expired_keys(1000));
    assert_eq!(None, db.get(b"k"));
}

#[test]
fn overwrite_clears_stale_ttl() {
    let mut db = Db::new();
    db.set(b"k".to_vec(), b"v1".to_vec(), Some(10_000), 0);
    assert!(!db.set(b"k".to_vec(), b"v2".to_vec(), None, 0));
    assert_eq!(None, db.purge_expired_keys(10_000));
    assert_eq!(None, db.purge_expired_keys(u64::MAX));
    assert_eq!(Some(b"v2".to_vec()), db.get(b"k"));
}

#[test]
fn sweep_removes_in_deadline_order_and_reports_the_next() {
    let mut db = Db::new();
    db.set(b"a".to_vec(), b"1".to_vec(), Some(300), 0);
    db.set(b"b".to_vec(), b"2".to_vec(), Some(100), 0);
    db.set(b"c".to_vec(), b"3".to_vec(), Some(200), 0);
    db.set(b"d".to_vec(), b"4".to_vec(), None, 0);
    assert_eq!(Some(300), db.purge_expired_keys(250));
    assert_eq!(None, db.get(b"b"));
    assert_eq!(None, db.get(b"c"));
    assert_eq!(Some(b"1".to_vec()), db.get(b"a"));
    assert_eq!(Some(b"4".to_vec()), db.get(b"d"));
}

#[test]
fn saturating_deadline() {
    let mut db = Db::new();
    db.set(b"k".to_vec(), b"v".to_vec(), Some(u64::MAX), 5);
    assert_eq!(Some(u64::MAX), db.purge_expired_keys(6));
    assert_eq!(None, db.purge_expired_keys(u64::MAX));
}

#[test]
fn shutdown_stops_the_sweep() {
    let mut db = Db::new();
    db.set(b"k".to_vec(), b"v".to_vec(), Some(1), 0);
    db.shutdown_purge_task();
    assert!(db.is_shutdown());
    assert_eq!(None, db.purge_expired_keys(100));
    assert_eq!(Some(b"v".to_vec()), db.get(b"k"));
    assert!(db.can_write());
}

#[test]
fn set_options() {
    let f = request(&["SET", "k", "v", "ex", "3"]);
    match Command::from_frame(f).unwrap() {
        Command::SetValue(s) => assert_eq!(Some(3000), s.expire()),
        other => panic!("unexpected {:?}", other),
    }
    let f = Frame::Array(vec![
        Frame::BulkString(b"set".to_vec()),
        Frame::BulkString(b"k".to_vec()),
        Frame::BulkString(b"v".to_vec()),
        Frame::SimpleString(b"PX".to_vec()),
        Frame::Integer(250),
    ]);
    match Command::from_frame(f).unwrap() {
        Command::SetValue(s) => {
            assert_eq!(b"k", &s.key()[..]);
            assert_eq!(b"v", &s.value()[..]);
            assert_eq!(Some(250), s.expire());
        }
        other => panic!("unexpected {:?}", other),
    }
    // atoi reads a sign and the digits in front.
    let f = request(&["set", "k", "v", "px", "+12ms"]);
    match Command::from_frame(f).unwrap() {
        Command::SetValue(s) => assert_eq!(Some(12), s.expire()),
        other => panic!("unexpected {:?}", other),
    }
    let f = request(&["set", "k", "v", "ex", "9223372036854775807"]);
    match Command::from_frame(f).unwrap() {
        Command::SetValue(s) => assert_eq!(Some(u64::MAX), s.expire()),
        other => panic!("unexpected {:?}", other),
    }
}

#[test]
fn parse_errors() {
    let err = |f: Frame| Command::from_frame(f).err().unwrap();
    assert_eq!(ParseError::NotAnArray, err(Frame::Integer(1)));
    assert_eq!(ParseError::EndOfStream, err(Frame::Array(Vec::new())));
    assert_eq!(ParseError::NotText, err(Frame::Array(vec![Frame::Integer(1)])));
    assert_eq!(ParseError::EndOfStream, err(request(&["get"])));
    assert_eq!(ParseError::TrailingFields, err(request(&["get", "a", ""])));
    assert_eq!(ParseError::EndOfStream, err(request(&["set", "k"])));
    assert_eq!(ParseError::UnsupportedOption, err(request(&["set", "k", "v", "nx"])));
    assert_eq!(ParseError::EndOfStream, err(request(&["set", "k", "v", "ex"])));
    assert_eq!(ParseError::InvalidNumber, err(request(&["set", "k", "v", "ex", "soon"])));
    assert_eq!(ParseError::InvalidExpire, err(request(&["set", "k", "v", "ex", "-1"])));
    assert_eq!(ParseError::TrailingFields, err(request(&["set", "k", "v", "ex", "1", "x"])));
    let f = Frame::Array(vec![
        Frame::BulkString(b"set".to_vec()),
        Frame::BulkString(b"k".to_vec()),
        Frame::BulkString(b"v".to_vec()),
        Frame::BulkString(b"px".to_vec()),
        Frame::Null,
    ]);
    assert_eq!(ParseError::NotAnInteger, err(f));
    assert_eq!("protocol error; unexpected end of stream", ParseError::EndOfStream.message());
}

#[test]
fn parse_cursor() {
    let f = Frame::Array(vec![
        Frame::SimpleString(b"a".to_vec()),
        Frame::BulkString(b"-5".to_vec()),
    ]);
    let mut p = Parse::new(f).unwrap();
    assert_eq!(Err(ParseError::TrailingFields), p.finish());
    assert_eq!(b"a".to_vec(), p.next_bytes().unwrap());
    assert_eq!(Ok(-5), p.next_int());
    assert_eq!(Ok(()), p.finish());
    assert_eq!(Err(ParseError::EndOfStream), p.next_string());
}

#[test]
fn unknown_command_names_itself() {
    let u = Unknown::new(b"foo".to_vec());
    assert_eq!(b"foo", &u.get_name()[..]);
    assert_eq!(b"-ERR unknown command 'foo'\r\n".to_vec(), encode(&u.apply()));
}

#[test]
fn set_into_frame_carries_the_ttl() {
    let f = SetValue::new(b"k".to_vec(), b"v".to_vec(), Some(1500)).into_frame();
    assert_eq!(
        b"*5\r\n$3\r\nset\r\n$1\r\nk\r\n$1\r\nv\r\n$2\r\npx\r\n:1500\r\n".to_vec(),
        encode(&f)
    );
}

#[test]
fn commands_apply_to_the_store() {
    let mut db = Db::new();
    assert!(matches!(Get::new(b"k".to_vec()).apply(&db), Frame::Null));
    let (resp, wake) = SetValue::new(b"k".to_vec(), b"v".to_vec(), Some(10)).apply(&mut db, 0);
    assert_eq!(b"+OK\r\n".to_vec(), encode(&resp));
    assert!(wake);
    match Get::new(b"k".to_vec()).apply(&db) {
        Frame::BulkString(v) => assert_eq!(b"v".to_vec(), v),
        other => panic!("unexpected {:?}", other),
    }
}

#[test]
fn encodable_frames() {
    assert!(Frame::SimpleString(b"fine".to_vec()).is_encodable());
    assert!(!Frame::SimpleString(b"two\r\nlines".to_vec()).is_encodable());
    assert!(!Frame::Error(b"a\nb".to_vec()).is_encodable());
    assert!(Frame::BulkString(b"a\r\nb".to_vec()).is_encodable());
    assert!(!Frame::Array(vec![Frame::Array(Vec::new())]).is_encodable());
    assert!(Frame::Array(vec![Frame::Null, Frame::Integer(3)]).is_encodable());
}

#[test]
fn names_and_keys_must_be_utf8() {
    let err = |f: Frame| Command::from_frame(f).err().unwrap();
    let bad_key = Frame::Array(vec![
        Frame::BulkString(b"get".to_vec()),
        Frame::BulkString(vec![0xff]),
    ]);
    assert_eq!(ParseError::InvalidString, err(bad_key));
    let bad_name = Frame::Array(vec![Frame::SimpleString(vec![0xc3, 0x28])]);
    assert_eq!(ParseError::InvalidString, err(bad_name));
    assert_eq!("protocol error; invalid string", ParseError::InvalidString.message());
    // Values stay raw bytes.
    let f = Frame::Array(vec![
        Frame::BulkString(b"set".to_vec()),
        Frame::BulkString("ключ".as_bytes().to_vec()),
        Frame::BulkString(vec![0xff, 0x00]),
    ]);
    match Command::from_frame(f).unwrap() {
        Command::SetValue(s) => assert_eq!(vec![0xff, 0x00], *s.value()),
        other => panic!("unexpected {:?}", other),
    }
}

#[test]
fn error_messages() {
    assert_eq!(
        "protocol error; expected end of frame, but there was more",
        ParseError::TrailingFields.message()
    );
    assert_eq!("protocol error; expected array", ParseError::NotAnArray.message());
    assert_eq!("protocol error; invalid number", ParseError::InvalidNumber.message());
}

#[test]
fn two_writes_in_a_row() {
    let mut db = Db::new();
    db.set(b"k".to_vec(), b"v1".to_vec(), Some(10_000), 0);
    db.set(b"k".to_vec(), b"v2".to_vec(), None, 0);
    assert_eq!(None, db.purge_expired_keys(20_000));
    assert_eq!(Some(b"v2".to_vec()), db.get(b"k"));
}
