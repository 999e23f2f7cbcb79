//! What the client is told about the transport: how a send ended, what a
//! read brought.

use vstd::prelude::*;

verus! {

/// The classes of transport failure that the client tells apart.
#[derive(Debug, Clone, Copy, PartialEq, Eq)]
pub enum TransportFault {
    /// The peer reset the connection: expected now and then, and transient.
    ConnectionReset,
    /// The target address is malformed.
    InvalidAddress,
    /// Any other failure.
    Other,
}

/// A transport failure: its class and the transport's description of it.
#[derive(Debug)]
pub struct TransportError {
    pub fault: TransportFault,
    pub detail: String,
}

/// How an attempt to transmit ended.
#[derive(Debug)]
pub enum SendOutcome {
    Sent,
    Failed(TransportError),
}

/// What one read from the connection brought.
#[derive(Debug)]
pub enum ReadOutcome {
    Data(Vec<u8>),
    Failed(TransportError),
}

impl TransportError {
    /// Whether the failure is transient: a reset of the connection.
    pub open spec fn is_reset(self) -> bool {
        self.fault is ConnectionReset
    }

    /// Whether the failure is transient.
    pub fn transient(&self) -> (b: bool)
        ensures
            b == self.is_reset(),
    {
        match self.fault {
            TransportFault::ConnectionReset => true,
            _ => false,
        }
    }
}

} // verus!
