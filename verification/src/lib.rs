//! An in-memory key-value store that speaks a small RESP-like wire format.
//!
//! The crate holds the codec (a stack-driven parser and a serializer), the
//! store, the command dispatcher and the per-frame step of a connection.
//! Sockets and threads are left to the program that links it.

pub mod command;
pub mod decimal;
pub mod dispatch_laws;
pub mod parser;
pub mod resp;
pub mod round_trip;
pub mod session;
pub mod storage;
pub mod text;

pub use crate::command::{Command, CommandCmd, CommandErr, CommandHandler, Del, Get, SetCmd};
pub use crate::parser::{CodecError, Resp};
pub use crate::resp::RespType;
pub use crate::session::{on_read, on_text, reply_for, Action};
pub use crate::storage::Storage;
