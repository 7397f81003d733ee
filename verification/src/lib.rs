//! A minimal Redis client and server: the RESP frame codec, command
//! parsing, and the decisions that the client and the server take between
//! their reads and writes on the socket.

pub mod decimal;
pub mod text;
pub mod frame;
pub mod connection;
pub mod parse;
pub mod cmd;
pub mod clients;
pub mod server;

pub use frame::Frame;
pub use cmd::Command;

use vstd::prelude::*;

verus! {

/// The port that a Redis server listens on unless told otherwise.
pub const DEFAULT_PORT: u16 = 6379;

} // verus!
