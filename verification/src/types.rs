//! Types shared by both connection roles: errors, disconnect reasons and
//! peer credentials.

use crate::rs::map::AllocError;
use crate::rs::wire::MessageWriteError;
use vstd::prelude::*;

verus! {

/// Credentials of the peer of an accepted connection, captured once when the
/// connection is accepted.
#[derive(Clone, Copy, Debug, PartialEq, Eq, Structural)]
pub struct Credentials {
    /// Process id.
    pub pid: i32,
    /// User id.
    pub uid: u32,
    /// Group id.
    pub gid: u32,
}

/// A violation of the protocol by the peer. Each one is fatal for the
/// connection on which it happens, and for no other.
#[derive(Clone, Copy, Debug, PartialEq, Eq, Structural)]
pub enum ProtocolError {
    /// A message is addressed to an id that names no live object.
    UnknownObject,
    /// The opcode is not one of the interface of the object addressed.
    InvalidOpcode,
    /// A message is addressed to an object whose behaviour has not been
    /// installed yet.
    UninitializedObject,
    /// The bytes are no message of the signature, or a file descriptor that
    /// the message needs did not arrive.
    Malformed,
    /// The peer names a new object with an id that it may not use.
    InvalidNewId(AllocError),
    /// A message creates an object and nothing tells of which interface.
    MissingChildInterface,
    /// A bind names no global that is advertised.
    UnknownGlobal,
    /// A bind asks for another interface, or a later version, than the
    /// global was advertised with.
    BindMismatch,
    /// More file descriptors arrived than the connection can hold.
    FdOverflow,
}

/// Why a connection ended.
#[derive(Clone, Copy, Debug, PartialEq, Eq, Structural)]
pub enum DisconnectReason {
    /// The peer closed the connection.
    ClosedByPeer,
    /// Reading from or writing to the socket failed.
    IoError,
    /// The peer violated the protocol.
    ProtocolViolation(ProtocolError),
}

/// Why an operation on the globals of a server failed. The failure concerns
/// the call that caused it and nothing else.
#[derive(Clone, Copy, Debug, PartialEq, Eq, Structural)]
pub enum GlobalError {
    /// No such global is advertised.
    NotFound,
    /// A global of this interface is advertised already.
    Duplicate,
    /// The registry has held as many globals as it can number.
    Exhausted,
}

/// Why a message could not be sent.
#[derive(Clone, Copy, Debug, PartialEq, Eq, Structural)]
pub enum SendError {
    /// The handle of the object addressed names no live object.
    InvalidId,
    /// The opcode is not one of the interface of the object addressed.
    InvalidOpcode,
    /// The message cannot be encoded against its signature.
    BadMessage(MessageWriteError),
    /// The message creates an object and nothing tells of which interface.
    MissingChildInterface,
    /// No id is left for the object that the message creates.
    NoFreeId,
    /// The message carries more file descriptors than one write can hold.
    TooManyFds,
}

} // verus!
