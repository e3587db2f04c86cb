//! What can go wrong, and how far it reaches.
//!
//! Only what keeps the engine from making any progress ends the process: no
//! ring, no socket, or a flush that the kernel failed. Everything else
//! concerns one operation and leaves the others alone.

use crate::address::DecodeError;
use crate::ring::{IoError, RingInitError};
use vstd::prelude::*;

verus! {

/// Every condition the engine or its caller can meet.
#[derive(Clone, Copy, Debug, PartialEq, Eq, Structural)]
pub enum EngineError {
    /// No ring was built.
    RingInit(RingInitError),
    /// The local port could not be had; the error code says why.
    SocketBind(i32),
    /// The ring had no room for an operation.
    QueueFull,
    /// A flush failed.
    Io(IoError),
    /// The operation with this tag failed with this error code.
    PerOperation { tag: usize, code: u32 },
    /// The datagram in this slot came from an address that does not decode.
    Decode { tag: usize, error: DecodeError },
}

/// How far an error reaches.
#[derive(Clone, Copy, Debug, PartialEq, Eq, Structural)]
pub enum Severity {
    /// The engine cannot go on: the error goes up to the process.
    Fatal,
    /// One operation is affected: it is reported, and the engine goes on.
    Recoverable,
}

/// Failing to build the ring, to bind the socket or to flush is fatal; a
/// full queue, a failed operation and an address that does not decode are
/// not.
pub open spec fn severity_of(error: EngineError) -> Severity {
    match error {
        EngineError::RingInit(_) => Severity::Fatal,
        EngineError::SocketBind(_) => Severity::Fatal,
        EngineError::Io(_) => Severity::Fatal,
        EngineError::QueueFull => Severity::Recoverable,
        EngineError::PerOperation { .. } => Severity::Recoverable,
        EngineError::Decode { .. } => Severity::Recoverable,
    }
}

impl EngineError {
    /// How far this error reaches.
    pub fn severity(self) -> (severity: Severity)
        ensures
            severity == severity_of(self),
    {
        match self {
            EngineError::RingInit(_) => Severity::Fatal,
            EngineError::SocketBind(_) => Severity::Fatal,
            EngineError::Io(_) => Severity::Fatal,
            EngineError::QueueFull => Severity::Recoverable,
            EngineError::PerOperation { .. } => Severity::Recoverable,
            EngineError::Decode { .. } => Severity::Recoverable,
        }
    }
}

} // verus!
