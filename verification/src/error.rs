//! The errors of the engine: one type per operation, and the connection-level errors that are
//! latched on the connection and read through `clear_error`.

use vstd::prelude::*;

verus! {

/// A connection-level error. At most one is latched at a time.
#[derive(Clone, Copy, Debug, PartialEq, Eq, Structural)]
pub enum TcpError {
    ResetSent,
    ResetReceived,
    TimedOut,
}

#[derive(Clone, Copy, Debug, PartialEq, Eq, Structural)]
pub enum CloseError {
    InvalidState,
}

#[derive(Clone, Copy, Debug, PartialEq, Eq, Structural)]
pub enum RstCloseError {
    InvalidState,
}

#[derive(Debug)]
pub enum ListenError<E> {
    InvalidState,
    FailedAssociation(E),
}

#[derive(Debug)]
pub enum ConnectError<E> {
    InvalidState,
    /// A previous connection attempt is in progress.
    InProgress,
    /// A connection has previously been attempted and was either successful or unsuccessful.
    AlreadyConnected,
    FailedAssociation(E),
}

#[derive(Clone, Copy, Debug, PartialEq, Eq, Structural)]
pub enum AcceptError {
    InvalidState,
    NothingToAccept,
}

#[derive(Clone, Copy, Debug, PartialEq, Eq, Structural)]
pub enum SendError {
    InvalidState,
    Full,
    NotConnected,
    StreamClosed,
}

#[derive(Clone, Copy, Debug, PartialEq, Eq, Structural)]
pub enum RecvError {
    InvalidState,
    Empty,
    NotConnected,
    /// The peer has sent a FIN, so no more data will be received.
    StreamClosed,
}

#[derive(Clone, Copy, Debug, PartialEq, Eq, Structural)]
pub enum PushPacketError {
    InvalidState,
}

#[derive(Clone, Copy, Debug, PartialEq, Eq, Structural)]
pub enum PopPacketError {
    InvalidState,
    NoPacket,
}

} // verus!
