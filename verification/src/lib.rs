//! Chain interaction layer for an Ethereum-compatible network.
//!
//! The crate turns a symbolic operation ("call method M on contract C with
//! arguments A") into payload bytes with well-defined success and failure
//! semantics, and reconciles the asynchronous result (receipt, return value,
//! or failure) into a form the caller can trust. Network transport itself is
//! left to the caller; every decision the layer makes is a pure function of
//! the values the network handed back.

pub mod bytes;
pub mod types;
pub mod abi;
pub mod error;
pub mod hex;
pub mod client;
pub mod lifecycle;
pub mod deploy;
pub mod record;
