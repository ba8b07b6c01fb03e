//! The error taxonomy of the library.

use vstd::prelude::*;

use crate::protocol::Frame;

verus! {

/// Everything that can go wrong inside the protocol core.
#[derive(Clone, Debug, Eq, PartialEq)]
pub enum StompError {
    /// Malformed input, a missing required header, or an unexpected command.
    ProtocolError,
    /// The server answered the handshake with an `ERROR` frame.
    StompError(Frame),
    /// No inbound activity for twice the negotiated interval.
    PeerFailed,
    /// An acknowledgement was requested for a frame without an `ack` header.
    NoAckHeader,
    /// The request queue towards the connection is gone.
    ConnectionClosed,
    /// A protocol field that must be text was not valid UTF-8.
    Utf8,
    /// A numeric protocol field did not parse as a number.
    ParseInt,
}

} // verus!
