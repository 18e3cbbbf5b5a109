//! The decisions of the server's tasks. The tasks themselves wait on
//! sockets, timers and signals; each time one of them wakes, it hands what
//! happened to a function here and carries out what comes back.
use vstd::prelude::*;

use crate::command::{applied, parse_command, unknown_message, Command, CommandView};
use crate::db::Db;
use crate::frame::{Frame, Value};
use crate::parse::ParseError;

verus! {

/// The longest wait, in seconds, between two attempts to accept a
/// connection; past it, accepting has failed for good.
pub const MAX_BACKOFF_SECS: u64 = 64;

/// After an attempt to accept a connection failed and `try_time` seconds
/// are to be waited, the wait for the attempt after next: twice as long.
/// `None` once the wait has passed the ceiling: the error is then final.
pub fn next_backoff(try_time: u64) -> (r: Option<u64>)
    ensures
        try_time > MAX_BACKOFF_SECS ==> r is None,
        try_time <= MAX_BACKOFF_SECS ==> r == Some((2 * try_time) as u64),
{
    if try_time > MAX_BACKOFF_SECS {
        None
    } else {
        Some(try_time * 2)
    }
}

/// Whether a connection's handler has seen the shutdown signal.
#[derive(Debug)]
pub struct Shutdown {
    shutdown: bool,
}

impl Shutdown {
    pub closed spec fn is_set(&self) -> bool {
        self.shutdown
    }

    /// A handler that has not seen the signal.
    pub fn new() -> (r: Shutdown)
        ensures
            !r.is_set(),
    {
        Shutdown { shutdown: false }
    }

    pub fn is_shutdown(&self) -> (r: bool)
        ensures
            r == self.is_set(),
    {
        self.shutdown
    }

    /// Records that the signal has been received.
    pub fn recv(&mut self)
        ensures
            final(self).is_set(),
    {
        self.shutdown = true;
    }
}

/// What a handler's wait ended with.
#[derive(Debug)]
pub enum Event {
    /// A whole request frame arrived.
    Request(Frame),
    /// The peer closed the connection cleanly.
    Closed,
    /// The shutdown signal fired.
    ShutdownSignal,
}

/// What a handler does next.
#[derive(Debug)]
pub enum Action {
    /// Write this response, and wake the sweeper when told to.
    Reply(Frame, bool),
    /// Report this protocol error to the peer and read on.
    Reject(ParseError),
    /// Stop serving the connection.
    Stop,
}

/// What a handler step does: with the signal seen before (`was_set`) or
/// with it now, it stops and leaves the store alone; at a clean close it
/// stops; otherwise it carries out the request, or rejects it.
pub open spec fn handled(
    was_set: bool,
    is_set: bool,
    before: Map<Seq<u8>, crate::db::Stored>,
    after: Map<Seq<u8>, crate::db::Stored>,
    event: Event,
    now: u64,
    r: Action,
) -> bool {
    if was_set || event is ShutdownSignal {
        r is Stop && after == before && is_set
    } else {
        match event {
            Event::Request(f) => !is_set && match parse_command(f@) {
                Ok(c) => r matches Action::Reply(resp, wake) && applied(c, before, after, now, resp@, wake),
                Err(e) => r == Action::Reject(e) && after == before,
            },
            _ => r is Stop && after == before && !is_set,
        }
    }
}

/// Whether a handler step on `event` writes to the store: a `SET` request
/// while the shutdown signal has not been seen.
pub open spec fn writes(was_set: bool, event: Event) -> bool {
    !was_set && (event matches Event::Request(f) && parse_command(f@) matches Ok(
        CommandView::SetValue(_, _, _),
    ))
}

/// One step of a connection's handler: it takes what its wait ended with
/// and returns what to do.
pub fn handle_event(shutdown: &mut Shutdown, db: &mut Db, event: Event, now: u64) -> (r: Action)
    requires
        old(db).wf(),
        writes(old(shutdown).is_set(), event) ==> old(db).has_fresh_id(),
    ensures
        final(db).wf(),
        final(db).writes_left() == old(db).writes_left() - (if writes(old(shutdown).is_set(), event) {
            1int
        } else {
            0int
        }),
        final(db).is_shut_down() == old(db).is_shut_down(),
        handled(old(shutdown).is_set(), final(shutdown).is_set(), old(db)@, final(db)@, event, now, r),
{
    if shutdown.is_shutdown() {
        return Action::Stop;
    }
    match event {
        Event::ShutdownSignal => {
            shutdown.recv();
            Action::Stop
        },
        Event::Closed => Action::Stop,
        Event::Request(frame) => match Command::from_frame(frame) {
            Err(e) => Action::Reject(e),
            Ok(cmd) => {
                let (resp, wake) = cmd.apply(db, now);
                Action::Reply(resp, wake)
            },
        },
    }
}

/// Once a handler has seen the shutdown signal, no later step carries out
/// a command: each one stops and leaves the store as it was.
pub proof fn lemma_no_command_after_shutdown(
    was_set: bool,
    is_set: bool,
    before: Map<Seq<u8>, crate::db::Stored>,
    after: Map<Seq<u8>, crate::db::Stored>,
    event: Event,
    now: u64,
    r: Action,
)
    requires
        handled(was_set, is_set, before, after, event, now, r),
        was_set || event is ShutdownSignal,
    ensures
        r is Stop,
        after == before,
        is_set,
{
}

/// An unknown command is answered with an error naming it, and the handler
/// goes on serving the connection: the store is untouched and the step
/// does not stop.
pub proof fn lemma_unknown_command_keeps_serving(
    is_set: bool,
    before: Map<Seq<u8>, crate::db::Stored>,
    after: Map<Seq<u8>, crate::db::Stored>,
    f: Frame,
    name: Seq<u8>,
    now: u64,
    r: Action,
)
    requires
        handled(false, is_set, before, after, Event::Request(f), now, r),
        parse_command(f@) == Ok::<CommandView, ParseError>(CommandView::Unknown(name)),
    ensures
        r matches Action::Reply(resp, wake) && resp@ == Value::Error(unknown_message(name)) && !wake,
        after == before,
        !is_set,
{
}

} // verus!
