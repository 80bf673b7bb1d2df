//! The failure taxonomy of the chain interaction layer.
//!
//! Every error is surfaced to the immediate caller with context bytes
//! (method name, revert reason, or the transport's own words), and none is
//! swallowed or retried inside the layer.

use vstd::prelude::*;

verus! {

#[derive(Clone, Debug)]
pub enum ChainError {
    /// The endpoint could not be reached or timed out; carries the
    /// transport's message.
    TransportFailure(Vec<u8>),
    /// Caller-side argument or interface mismatch, caught before any
    /// network I/O; carries the method name.
    EncodingError(Vec<u8>),
    /// Response bytes do not match the declared return shape; carries the
    /// method name.
    DecodingError(Vec<u8>),
    /// The contract explicitly rejected a read call; carries the revert
    /// reason bytes the node reported.
    CallReverted(Vec<u8>),
    /// Broadcast refused: stale sequence number, insufficient funds, or a
    /// malformed transaction; carries the node's message.
    TransactionRejected(Vec<u8>),
    /// No receipt appeared within the caller's bound. The transaction's
    /// fate is unknown — it may still be mined — so this is not a failure
    /// of the transaction itself.
    AwaitTimeout,
    /// A receipt arrived, but with no created-contract address.
    DeploymentFailed,
}

impl ChainError {
    /// A short stable label for the error's kind, for display and logs.
    pub fn label(&self) -> (r: &'static str)
        ensures
            r@ == match self {
                ChainError::TransportFailure(_) => "transport failure"@,
                ChainError::EncodingError(_) => "encoding error"@,
                ChainError::DecodingError(_) => "decoding error"@,
                ChainError::CallReverted(_) => "call reverted"@,
                ChainError::TransactionRejected(_) => "transaction rejected"@,
                ChainError::AwaitTimeout => "await timeout"@,
                ChainError::DeploymentFailed => "deployment failed"@,
            },
    {
        match self {
            ChainError::TransportFailure(_) => "transport failure",
            ChainError::EncodingError(_) => "encoding error",
            ChainError::DecodingError(_) => "decoding error",
            ChainError::CallReverted(_) => "call reverted",
            ChainError::TransactionRejected(_) => "transaction rejected",
            ChainError::AwaitTimeout => "await timeout",
            ChainError::DeploymentFailed => "deployment failed",
        }
    }
}

} // verus!
