//! The ways in which the client's operations fail.

use vstd::prelude::*;

verus! {

/// A failure of one of the client's operations.
#[derive(Debug, PartialEq, Eq)]
pub enum Error {
    /// The input is not bencode.
    MalformedInput,
    /// The input is bencode, but a field that was expected is absent or of
    /// another kind.
    SchemaError,
    /// The tracker reported a failure; the reason is carried as it was sent.
    TrackerError(Vec<u8>),
    /// A tracker or a peer answered with something of the wrong shape or size.
    ProtocolError,
    /// No connection to the tracker or the peer could be opened.
    ConnectError,
    /// The peer closed the connection before its answer was complete.
    ConnectionClosed,
    /// The tracker or the peer did not answer in the time allowed.
    Timeout,
}

/// A failure with the tracker's reason as a sequence of bytes.
pub enum Failure {
    MalformedInput,
    SchemaError,
    TrackerError(Seq<u8>),
    ProtocolError,
    ConnectError,
    ConnectionClosed,
    Timeout,
}

impl View for Error {
    type V = Failure;

    open spec fn view(&self) -> Failure {
        match self {
            Error::MalformedInput => Failure::MalformedInput,
            Error::SchemaError => Failure::SchemaError,
            Error::TrackerError(reason) => Failure::TrackerError(reason@),
            Error::ProtocolError => Failure::ProtocolError,
            Error::ConnectError => Failure::ConnectError,
            Error::ConnectionClosed => Failure::ConnectionClosed,
            Error::Timeout => Failure::Timeout,
        }
    }
}

} // verus!
