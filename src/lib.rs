//! An in-memory key-value server speaking a Redis-style wire protocol.
//!
//! The library holds the verified logic: the frame codec, the command
//! grammar, the key-value store with its expiration index, and the decisions
//! that drive each connection, the accept loop's retries and shutdown. The
//! program around it performs the I/O and hands the library plain values.
use vstd::prelude::*;

pub mod command;
pub mod connection;
pub mod db;
pub mod decode;
pub mod frame;
pub mod number;
pub mod parse;
pub mod server;
pub mod text;

verus! {

} // verus!
