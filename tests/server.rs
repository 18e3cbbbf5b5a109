use redis_lite::command::{Command, Get, SetValue};
use redis_lite::connection::Connection;
use redis_lite::db::Db;
use redis_lite::frame::{encode, Frame};
use redis_lite::parse::Parse;
use redis_lite::server::{handle_event, next_backoff, Action, Event, Shutdown};

/// Feeds request bytes to a connection, handles the frame they hold, and
/// returns the bytes of the response.
fn exchange(db: &mut Db, shutdown: &mut Shutdown, conn: &mut Connection, input: &[u8], now: u64) -> Vec<u8> {
    conn.receive(input);
    let frame = conn.parse_frame().unwrap().unwrap();
    match handle_event(shutdown, db, Event::Request(frame), now) {
        Action::Reply(resp, _) => encode(&resp),
        Action::Reject(e) => encode(&Frame::Error(e.message().as_bytes().to_vec())),
        Action::Stop => panic!("handler stopped"),
    }
}

#[test]
fn server_key_value_get_set() {
    let mut db = Db::new();
    let mut shutdown = Shutdown::new();
    let mut conn = Connection::new();

    let r = exchange(&mut db, &mut shutdown, &mut conn, b"*2\r\n$3\r\nGET\r\n$5\r\nhello\r\n", 0);
    assert_eq!(b"$-1\r\n", &r[..]);

    let r = exchange(
        &mut db,
        &mut shutdown,
        &mut conn,
        b"*3\r\n$3\r\nSET\r\n$5\r\nhello\r\n$5\r\nworld\r\n",
        0,
    );
    assert_eq!(b"+OK\r\n", &r[..]);

    let r = exchange(&mut db, &mut shutdown, &mut conn, b"*2\r\n$3\r\nGET\r\n$5\r\nhello\r\n", 0);
    assert_eq!(b"$5\r\nworld\r\n", &r[..]);

    assert!(conn.read_end().is_ok());
}

#[test]
fn client_key_value_get_set() {
    let mut db = Db::new();
    let mut shutdown = Shutdown::new();
    let set = SetValue::new(b"hello".to_vec(), b"world".to_vec(), None).into_frame();
    match handle_event(&mut shutdown, &mut db, Event::Request(set), 0) {
        Action::Reply(Frame::SimpleString(s), _) => assert_eq!(b"OK", &s[..]),
        other => panic!("unexpected {:?}", other),
    }
    let get = Get::new(b"hello".to_vec()).into_frame();
    match handle_event(&mut shutdown, &mut db, Event::Request(get), 0) {
        Action::Reply(Frame::BulkString(value), _) => assert_eq!(b"world", &value[..]),
        other => panic!("unexpected {:?}", other),
    }
}

#[test]
fn key_value_timeout() {
    let mut db = Db::new();
    let mut shutdown = Shutdown::new();
    let mut conn = Connection::new();

    let r = exchange(
        &mut db,
        &mut shutdown,
        &mut conn,
        b"*5\r\n$3\r\nSET\r\n$5\r\nhello\r\n$5\r\nworld\r\n+EX\r\n:1\r\n",
        0,
    );
    assert_eq!(b"+OK\r\n", &r[..]);

    let r = exchange(&mut db, &mut shutdown, &mut conn, b"*2\r\n$3\r\nGET\r\n$5\r\nhello\r\n", 0);
    assert_eq!(b"$5\r\nworld\r\n", &r[..]);

    // One second later the sweeper runs.
    assert_eq!(None, db.purge_expired_keys(1000));

    let r = exchange(&mut db, &mut shutdown, &mut conn, b"*2\r\n$3\r\nGET\r\n$5\r\nhello\r\n", 1000);
    assert_eq!(b"$-1\r\n", &r[..]);
}

#[test]
fn send_error_unknown_command() {
    let mut db = Db::new();
    let mut shutdown = Shutdown::new();
    let mut conn = Connection::new();

    let r = exchange(&mut db, &mut shutdown, &mut conn, b"*2\r\n$3\r\nFOO\r\n$5\r\nhello\r\n", 0);
    assert_eq!(28, r.len());
    assert_eq!(b"-ERR unknown command \'foo\'\r\n", &r[..]);
}

#[test]
fn unknown_command_then_valid_command() {
    let mut db = Db::new();
    let mut shutdown = Shutdown::new();
    let mut conn = Connection::new();
    let r = exchange(&mut db, &mut shutdown, &mut conn, b"*2\r\n$3\r\nFOO\r\n$3\r\nbar\r\n", 0);
    assert_eq!(b"-ERR unknown command 'foo'\r\n", &r[..]);
    assert!(!shutdown.is_shutdown());
    let r = exchange(&mut db, &mut shutdown, &mut conn, b"*3\r\n$3\r\nset\r\n$1\r\nk\r\n$1\r\nv\r\n", 0);
    assert_eq!(b"+OK\r\n", &r[..]);
}

#[test]
fn malformed_request_is_rejected_and_serving_goes_on() {
    let mut db = Db::new();
    let mut shutdown = Shutdown::new();
    let mut conn = Connection::new();
    let r = exchange(&mut db, &mut shutdown, &mut conn, b"+PING\r\n", 0);
    assert_eq!(b"-protocol error; expected array\r\n", &r[..]);
    let r = exchange(&mut db, &mut shutdown, &mut conn, b"*2\r\n$3\r\nGET\r\n$1\r\nk\r\n", 0);
    assert_eq!(b"$-1\r\n", &r[..]);
}

#[test]
fn shutdown_stops_every_later_step() {
    let mut db = Db::new();
    let mut shutdown = Shutdown::new();
    assert!(matches!(
        handle_event(&mut shutdown, &mut db, Event::ShutdownSignal, 0),
        Action::Stop
    ));
    assert!(shutdown.is_shutdown());
    let set = SetValue::new(b"k".to_vec(), b"v".to_vec(), None).into_frame();
    assert!(matches!(handle_event(&mut shutdown, &mut db, Event::Request(set), 0), Action::Stop));
    assert_eq!(None, db.get(b"k"));
}

#[test]
fn clean_close_stops() {
    let mut db = Db::new();
    let mut shutdown = Shutdown::new();
    assert!(matches!(handle_event(&mut shutdown, &mut db, Event::Closed, 0), Action::Stop));
    assert!(!shutdown.is_shutdown());
}

#[test]
fn set_wakes_sweeper_only_for_an_earlier_deadline() {
    let mut db = Db::new();
    let mut shutdown = Shutdown::new();
    let first = SetValue::new(b"a".to_vec(), b"1".to_vec(), Some(5000)).into_frame();
    assert!(matches!(handle_event(&mut shutdown, &mut db, Event::Request(first), 0), Action::Reply(_, true)));
    let later = SetValue::new(b"b".to_vec(), b"2".to_vec(), Some(9000)).into_frame();
    assert!(matches!(handle_event(&mut shutdown, &mut db, Event::Request(later), 0), Action::Reply(_, false)));
    let plain = SetValue::new(b"c".to_vec(), b"3".to_vec(), None).into_frame();
    assert!(matches!(handle_event(&mut shutdown, &mut db, Event::Request(plain), 0), Action::Reply(_, false)));
    let sooner = SetValue::new(b"d".to_vec(), b"4".to_vec(), Some(1000)).into_frame();
    assert!(matches!(handle_event(&mut shutdown, &mut db, Event::Request(sooner), 0), Action::Reply(_, true)));
}

#[test]
fn accept_backoff_doubles_up_to_the_ceiling() {
    assert_eq!(Some(2), next_backoff(1));
    assert_eq!(Some(4), next_backoff(2));
    assert_eq!(Some(128), next_backoff(64));
    assert_eq!(None, next_backoff(128));
    let mut waits = Vec::new();
    let mut t = 1u64;
    while let Some(next) = next_backoff(t) {
        waits.push(t);
        t = next;
    }
    assert_eq!(vec![1, 2, 4, 8, 16, 32, 64], waits);
}

#[test]
fn command_from_frame_reads_names_in_any_case() {
    let f = Frame::Array(vec![
        Frame::BulkString(b"GeT".to_vec()),
        Frame::BulkString(b"key".to_vec()),
    ]);
    match Command::from_frame(f).unwrap() {
        Command::Get(g) => assert_eq!(b"key", &g.key()[..]),
        other => panic!("unexpected {:?}", other),
    }
}

#[test]
fn unknown_names_are_lowered_with_unicode_rules() {
    let mut db = Db::new();
    let mut shutdown = Shutdown::new();
    let f = Frame::Array(vec![Frame::BulkString("FÖÖ".as_bytes().to_vec())]);
    match handle_event(&mut shutdown, &mut db, Event::Request(f), 0) {
        Action::Reply(resp, false) => {
            assert_eq!("-ERR unknown command 'föö'\r\n".as_bytes().to_vec(), encode(&resp))
        }
        other => panic!("unexpected {:?}", other),
    }
}

#[test]
fn commands_by_lowered_name() {
    use_from_name(b"get", vec![Frame::BulkString(b"k".to_vec())], "get");
    use_from_name(b"set", vec![Frame::BulkString(b"k".to_vec()), Frame::BulkString(b"v".to_vec())], "set");
    use_from_name(b"GET", vec![Frame::BulkString(b"k".to_vec())], "unknown");
}

fn use_from_name(name: &[u8], fields: Vec<Frame>, expected: &str) {
    let mut parse = Parse::new(Frame::Array(fields)).unwrap();
    let kind = match Command::from_name(name.to_vec(), &mut parse).unwrap() {
        Command::Get(_) => "get",
        Command::SetValue(_) => "set",
        Command::Unknown(_) => "unknown",
    };
    assert_eq!(expected, kind);
}
