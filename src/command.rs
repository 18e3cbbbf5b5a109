//! The commands a client may send, how they are read from a request, and
//! what they do to the store.
use vstd::prelude::*;

use crate::db::{deadline, wakes_sweeper, Db, Stored};
use crate::frame::{Frame, Value};
use crate::parse::{int_of, string_of, text_of, Parse, ParseError};
use crate::text::{ascii_lower, copy_bytes, lower_of, to_ascii_lower, to_lowercase};

verus! {

/// The model of a command: `SetValue` carries its time to live in milliseconds.
pub enum CommandView {
    Get(Seq<u8>),
    SetValue(Seq<u8>, Seq<u8>, Option<u64>),
    Unknown(Seq<u8>),
}

pub open spec fn get_word() -> Seq<u8> {
    seq![103u8, 101u8, 116u8]
}

pub open spec fn set_word() -> Seq<u8> {
    seq![115u8, 101u8, 116u8]
}

pub open spec fn ex_word() -> Seq<u8> {
    seq![101u8, 120u8]
}

pub open spec fn px_word() -> Seq<u8> {
    seq![112u8, 120u8]
}

/// `OK`.
pub open spec fn ok_text() -> Seq<u8> {
    seq![79u8, 75u8]
}

/// `ERR unknown command '<name>'`.
pub open spec fn unknown_message(name: Seq<u8>) -> Seq<u8> {
    seq![
        69u8, 82u8, 82u8, 32u8, 117u8, 110u8, 107u8, 110u8, 111u8, 119u8, 110u8, 32u8,
        99u8, 111u8, 109u8, 109u8, 97u8, 110u8, 100u8, 32u8, 39u8,
    ] + name + seq![39u8]
}

/// A time to live of `n` seconds (`secs`) or milliseconds, in milliseconds,
/// saturating.
pub open spec fn ttl_ms(n: int, secs: bool) -> u64 {
    let ms = if secs {
        n * 1000
    } else {
        n
    };
    if ms > u64::MAX {
        u64::MAX
    } else {
        ms as u64
    }
}

/// The fields of `GET` after its name.
pub open spec fn parse_get(r: Seq<Value>) -> Result<CommandView, ParseError> {
    if r.len() == 0 {
        Err(ParseError::EndOfStream)
    } else if string_of(r[0]) is Err {
        Err(string_of(r[0])->Err_0)
    } else if r.len() > 1 {
        Err(ParseError::TrailingFields)
    } else {
        Ok(CommandView::Get(string_of(r[0])->Ok_0))
    }
}

/// The fields of `SET` after its name: a key (a string), a value (any
/// bytes), then `EX <seconds>` or `PX <milliseconds>` if anything.
pub open spec fn parse_set(r: Seq<Value>) -> Result<CommandView, ParseError> {
    if r.len() == 0 {
        Err(ParseError::EndOfStream)
    } else if string_of(r[0]) is Err {
        Err(string_of(r[0])->Err_0)
    } else if r.len() == 1 {
        Err(ParseError::EndOfStream)
    } else if text_of(r[1]) is None {
        Err(ParseError::NotText)
    } else {
        let key = string_of(r[0])->Ok_0;
        let value = text_of(r[1])->Some_0;
        if r.len() == 2 {
            Ok(CommandView::SetValue(key, value, None))
        } else if string_of(r[2]) is Err {
            Err(string_of(r[2])->Err_0)
        } else {
            let opt = ascii_lower(string_of(r[2])->Ok_0);
            if opt != ex_word() && opt != px_word() {
                Err(ParseError::UnsupportedOption)
            } else if r.len() == 3 {
                Err(ParseError::EndOfStream)
            } else {
                match int_of(r[3]) {
                    Err(e) => Err(e),
                    Ok(n) => if n < 0 {
                        Err(ParseError::InvalidExpire)
                    } else if r.len() > 4 {
                        Err(ParseError::TrailingFields)
                    } else {
                        Ok(CommandView::SetValue(key, value, Some(ttl_ms(n, opt == ex_word()))))
                    },
                }
            }
        }
    }
}

/// The command that a request frame asks for. The name is matched in lower
/// case, as `str::to_lowercase` gives it; a name that is neither `get` nor `set` makes an
/// unknown command, whatever follows it.
pub open spec fn parse_command(v: Value) -> Result<CommandView, ParseError> {
    match v {
        Value::Array(items) => if items.len() == 0 {
            Err(ParseError::EndOfStream)
        } else if string_of(items[0]) is Err {
            Err(string_of(items[0])->Err_0)
        } else {
            command_named(lower_of(string_of(items[0])->Ok_0), items.drop_first())
        },
        _ => Err(ParseError::NotAnArray),
    }
}

/// The command named `name`, already in lower case, with the fields `r`
/// after the name.
pub open spec fn command_named(name: Seq<u8>, r: Seq<Value>) -> Result<CommandView, ParseError> {
    if name == get_word() {
        parse_get(r)
    } else if name == set_word() {
        parse_set(r)
    } else {
        Ok(CommandView::Unknown(name))
    }
}

/// What carrying out `c` at `now` does: the store goes from `before` to
/// `after`, `resp` is the response, and `wake` tells whether the sweeper
/// must be woken.
pub open spec fn applied(
    c: CommandView,
    before: Map<Seq<u8>, Stored>,
    after: Map<Seq<u8>, Stored>,
    now: u64,
    resp: Value,
    wake: bool,
) -> bool {
    match c {
        CommandView::Get(k) => after == before && !wake && resp == (if before.contains_key(k) {
            Value::Bulk(before[k].data)
        } else {
            Value::Null
        }),
        CommandView::SetValue(k, v, e) => {
            let when = match e {
                Some(ms) => Some(deadline(now, ms)),
                None => None,
            };
            &&& after == before.insert(k, Stored { data: v, expires_at: when })
            &&& resp == Value::Simple(ok_text())
            &&& wake == wakes_sweeper(before, when)
        },
        CommandView::Unknown(n) => after == before && !wake && resp == Value::Error(unknown_message(n)),
    }
}

/// Reads the value under a key.
#[derive(Debug)]
pub struct Get {
    pub key: Vec<u8>,
}

/// Writes a value under a key, with a time to live in milliseconds if one
/// is given.
#[derive(Debug)]
pub struct SetValue {
    pub key: Vec<u8>,
    pub value: Vec<u8>,
    pub expire: Option<u64>,
}

/// A command whose name is not known.
#[derive(Debug)]
pub struct Unknown {
    pub command_name: Vec<u8>,
}

#[derive(Debug)]
pub enum Command {
    Get(Get),
    SetValue(SetValue),
    Unknown(Unknown),
}

impl View for Command {
    type V = CommandView;

    open spec fn view(&self) -> CommandView {
        match self {
            Command::Get(g) => CommandView::Get(g.key@),
            Command::SetValue(s) => CommandView::SetValue(s.key@, s.value@, s.expire),
            Command::Unknown(u) => CommandView::Unknown(u.command_name@),
        }
    }
}

/// Whether `s` is the two letters `a`, `b`.
fn is_word2(s: &Vec<u8>, a: u8, b: u8) -> (r: bool)
    ensures
        r == (s@ == seq![a, b]),
{
    let r = s.len() == 2 && s[0] == a && s[1] == b;
    proof {
        if s@.len() == 2 && s@[0] == a && s@[1] == b {
            assert(s@ =~= seq![a, b]);
        }
    }
    r
}

/// Whether `s` is the three letters `a`, `b`, `c`.
fn is_word3(s: &Vec<u8>, a: u8, b: u8, c: u8) -> (r: bool)
    ensures
        r == (s@ == seq![a, b, c]),
{
    let r = s.len() == 3 && s[0] == a && s[1] == b && s[2] == c;
    proof {
        if s@.len() == 3 && s@[0] == a && s@[1] == b && s@[2] == c {
            assert(s@ =~= seq![a, b, c]);
        }
    }
    r
}

impl Get {
    pub fn new(key: Vec<u8>) -> (r: Get)
        ensures
            r.key@ == key@,
    {
        Get { key }
    }

    pub fn key(&self) -> (r: &Vec<u8>)
        ensures
            r@ == self.key@,
    {
        &self.key
    }

    /// Reads the fields of `GET` that follow its name.
    pub fn parse_frames(parse: &mut Parse) -> (r: Result<Get, ParseError>)
        requires
            old(parse).inv(),
        ensures
            final(parse).inv(),
            match parse_get(old(parse).rest()) {
                Ok(CommandView::Get(k)) => r matches Ok(g) && g.key@ == k && final(parse).rest().len()
                    == 0,
                Ok(_) => false,
                Err(e) => r == Err::<Get, ParseError>(e),
            },
    {
        let key = parse.next_string()?;
        parse.finish()?;
        Ok(Get { key })
    }

    /// The value under the key, or null.
    pub fn apply(&self, db: &Db) -> (r: Frame)
        requires
            db.wf(),
        ensures
            r@ == (if db@.contains_key(self.key@) {
                Value::Bulk(db@[self.key@].data)
            } else {
                Value::Null
            }),
    {
        match db.get(self.key.as_slice()) {
            Some(v) => Frame::BulkString(v),
            None => Frame::Null,
        }
    }

    /// The request frame that asks for this command.
    pub fn into_frame(self) -> (r: Frame)
        ensures
            r.wf(),
            r@ == Value::Array(seq![Value::Bulk(get_word()), Value::Bulk(self.key@)]),
    {
        let mut v: Vec<Frame> = Vec::new();
        v.push(Frame::BulkString(vec![103u8, 101u8, 116u8]));
        v.push(Frame::BulkString(self.key));
        let r = Frame::Array(v);
        assert(r@->Array_0 =~= seq![Value::Bulk(get_word()), Value::Bulk(self.key@)]);
        r
    }
}

impl SetValue {
    pub fn new(key: Vec<u8>, value: Vec<u8>, expire: Option<u64>) -> (r: SetValue)
        ensures
            r.key@ == key@,
            r.value@ == value@,
            r.expire == expire,
    {
        SetValue { key, value, expire }
    }

    pub fn key(&self) -> (r: &Vec<u8>)
        ensures
            r@ == self.key@,
    {
        &self.key
    }

    pub fn value(&self) -> (r: &Vec<u8>)
        ensures
            r@ == self.value@,
    {
        &self.value
    }

    /// The time to live, in milliseconds.
    pub fn expire(&self) -> (r: Option<u64>)
        ensures
            r == self.expire,
    {
        self.expire
    }

    /// Reads the fields of `SET` that follow its name.
    pub fn parse_frames(parse: &mut Parse) -> (r: Result<SetValue, ParseError>)
        requires
            old(parse).inv(),
        ensures
            final(parse).inv(),
            match parse_set(old(parse).rest()) {
                Ok(CommandView::SetValue(k, v, e)) => r matches Ok(s) && s.key@ == k && s.value@ == v
                    && s.expire == e && final(parse).rest().len() == 0,
                Ok(_) => false,
                Err(e) => r == Err::<SetValue, ParseError>(e),
            },
    {
        let ghost r0 = parse.rest();
        let key = parse.next_string()?;
        let value = parse.next_bytes()?;
        let ghost r2 = parse.rest();
        let opt = match parse.next_string() {
            Ok(s) => to_ascii_lower(s.as_slice()),
            Err(ParseError::EndOfStream) => {
                assert(r0.len() == 2);
                return Ok(SetValue { key, value, expire: None });
            },
            Err(e) => {
                return Err(e);
            },
        };
        let secs = is_word2(&opt, 101u8, 120u8);
        if !secs && !is_word2(&opt, 112u8, 120u8) {
            return Err(ParseError::UnsupportedOption);
        }
        let n = parse.next_int()?;
        if n < 0 {
            return Err(ParseError::InvalidExpire);
        }
        parse.finish()?;
        let ms: u64 = if secs {
            if n as u64 > u64::MAX / 1000 {
                u64::MAX
            } else {
                n as u64 * 1000
            }
        } else {
            n as u64
        };
        proof {
            assert(r0.drop_first().drop_first() =~= r0.subrange(2, r0.len() as int));
        }
        Ok(SetValue { key, value, expire: Some(ms) })
    }

    /// Writes the value at time `now`, and returns `OK` with whether the
    /// sweeper must be woken.
    pub fn apply(&self, db: &mut Db, now: u64) -> (r: (Frame, bool))
        requires
            old(db).wf(),
            old(db).has_fresh_id(),
        ensures
            final(db).wf(),
            final(db).is_shut_down() == old(db).is_shut_down(),
            applied(CommandView::SetValue(self.key@, self.value@, self.expire), old(db)@, final(db)@, now, r.0@, r.1),
            final(db).writes_left() == old(db).writes_left() - 1,
    {
        let key = copy_bytes(self.key.as_slice());
        let value = copy_bytes(self.value.as_slice());
        let wake = db.set(key, value, self.expire, now);
        let ok = Frame::SimpleString(vec![79u8, 75u8]);
        assert(ok@->Simple_0 =~= ok_text());
        (ok, wake)
    }

    /// The request frame that asks for this command. A time to live beyond
    /// the largest integer frame is sent as that largest value.
    pub fn into_frame(self) -> (r: Frame)
        ensures
            r.wf(),
            r@ == Value::Array(
                match self.expire {
                    None => seq![Value::Bulk(set_word()), Value::Bulk(self.key@), Value::Bulk(self.value@)],
                    Some(ms) => seq![
                        Value::Bulk(set_word()),
                        Value::Bulk(self.key@),
                        Value::Bulk(self.value@),
                        Value::Bulk(px_word()),
                        Value::Integer(if ms > i64::MAX { i64::MAX as int } else { ms as int }),
                    ],
                },
            ),
    {
        let ghost key = self.key@;
        let ghost value = self.value@;
        let mut v: Vec<Frame> = Vec::new();
        v.push(Frame::BulkString(vec![115u8, 101u8, 116u8]));
        v.push(Frame::BulkString(self.key));
        v.push(Frame::BulkString(self.value));
        match self.expire {
            Some(ms) => {
                v.push(Frame::BulkString(vec![112u8, 120u8]));
                let n: i64 = if ms > i64::MAX as u64 {
                    i64::MAX
                } else {
                    ms as i64
                };
                v.push(Frame::Integer(n));
            },
            None => {},
        }
        let r = Frame::Array(v);
        assert(r@->Array_0 =~= match self.expire {
            None => seq![Value::Bulk(set_word()), Value::Bulk(key), Value::Bulk(value)],
            Some(ms) => seq![
                Value::Bulk(set_word()),
                Value::Bulk(key),
                Value::Bulk(value),
                Value::Bulk(px_word()),
                Value::Integer(if ms > i64::MAX { i64::MAX as int } else { ms as int }),
            ],
        });
        r
    }
}

impl Unknown {
    pub fn new(name: Vec<u8>) -> (r: Unknown)
        ensures
            r.command_name@ == name@,
    {
        Unknown { command_name: name }
    }

    pub fn get_name(&self) -> (r: &Vec<u8>)
        ensures
            r@ == self.command_name@,
    {
        &self.command_name
    }

    /// The error that reports this command as unknown.
    pub fn apply(&self) -> (r: Frame)
        ensures
            r@ == Value::Error(unknown_message(self.command_name@)),
    {
        let mut msg: Vec<u8> = vec![
            69u8, 82u8, 82u8, 32u8, 117u8, 110u8, 107u8, 110u8, 111u8, 119u8, 110u8, 32u8,
            99u8, 111u8, 109u8, 109u8, 97u8, 110u8, 100u8, 32u8, 39u8,
        ];
        let mut name = copy_bytes(self.command_name.as_slice());
        msg.append(&mut name);
        msg.push(39u8);
        assert(msg@ =~= unknown_message(self.command_name@));
        Frame::Error(msg)
    }
}

impl Command {
    /// Reads the command that `frame` asks for.
    pub fn from_frame(frame: Frame) -> (r: Result<Command, ParseError>)
        ensures
            match parse_command(frame@) {
                Ok(c) => r matches Ok(cmd) && cmd@ == c,
                Err(e) => r == Err::<Command, ParseError>(e),
            },
    {
        let mut parse = Parse::new(frame)?;
        let name = parse.next_string()?;
        let name = to_lowercase(name.as_slice());
        Command::from_name(name, &mut parse)
    }

    /// Reads the fields of the command named `name`, given in lower case.
    pub fn from_name(name: Vec<u8>, parse: &mut Parse) -> (r: Result<Command, ParseError>)
        requires
            old(parse).inv(),
        ensures
            final(parse).inv(),
            match command_named(name@, old(parse).rest()) {
                Ok(c) => r matches Ok(cmd) && cmd@ == c,
                Err(e) => r == Err::<Command, ParseError>(e),
            },
    {
        if is_word3(&name, 103u8, 101u8, 116u8) {
            let g = Get::parse_frames(parse)?;
            Ok(Command::Get(g))
        } else if is_word3(&name, 115u8, 101u8, 116u8) {
            let s = SetValue::parse_frames(parse)?;
            Ok(Command::SetValue(s))
        } else {
            Ok(Command::Unknown(Unknown { command_name: name }))
        }
    }

    /// Carries out the command on `db` at time `now`, and returns the
    /// response, with whether the sweeper must be woken.
    pub fn apply(&self, db: &mut Db, now: u64) -> (r: (Frame, bool))
        requires
            old(db).wf(),
            self@ is SetValue ==> old(db).has_fresh_id(),
        ensures
            final(db).wf(),
            final(db).is_shut_down() == old(db).is_shut_down(),
            applied(self@, old(db)@, final(db)@, now, r.0@, r.1),
            final(db).writes_left() == old(db).writes_left() - (if self@ is SetValue {
                1int
            } else {
                0int
            }),
    {
        match self {
            Command::Get(g) => (g.apply(db), false),
            Command::SetValue(s) => s.apply(db, now),
            Command::Unknown(u) => (u.apply(), false),
        }
    }
}

} // verus!
