//! Core of a STOMP 1.2 client: frame codec, heartbeat pacemaker, and the
//! routing decisions of the connection multiplexer.
//!
//! The crate is transport-free: it works on plain byte buffers and values.
//! An embedding program owns the socket and the task loops and calls into
//! this library for every decision that the protocol prescribes.

pub mod connection;
pub mod errors;
pub mod pacemaker;
pub mod parser;
pub mod protocol;
pub mod roundtrip;
pub mod unparser;
pub mod wire;

pub use errors::StompError;
pub use protocol::{AckMode, Command, Frame, FrameOrKeepAlive, Headers, StringyFrame};
