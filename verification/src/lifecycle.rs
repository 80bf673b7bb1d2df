//! The transaction lifecycle tracker: a broadcast transaction's path from
//! the node's pool to a receipt, driven by repeated polling.
//!
//! The tracker holds the hash being awaited and decides, poll by poll,
//! whether to keep polling, to report the mined receipt, or to give up for
//! now. Timing out never loses the hash and never decides the transaction's
//! fate: it may still be mined, and a later poll on the same tracker can
//! still observe the receipt.

use vstd::prelude::*;
use crate::types::{Address, TxHash, Uint256};
use crate::client::PendingTransaction;

verus! {

/// The network's authoritative record of a mined transaction's outcome.
#[derive(Clone, Debug)]
pub struct Receipt {
    pub transaction_hash: TxHash,
    pub block_number: u64,
    pub gas_used: Uint256,
    /// The status flag: set for success, cleared for a revert (gas was
    /// still consumed, but no state change was applied).
    pub success: bool,
    /// The created contract's address, present only for a creation.
    pub contract_address: Option<Address>,
    /// Raw emitted log entries.
    pub logs: Vec<Vec<u8>>,
}

/// The lifecycle states of a broadcast transaction.
#[derive(Clone, Copy, Debug, PartialEq, Eq, Structural)]
pub enum TrackState {
    /// Broadcast, not yet seen in the node's pool.
    Broadcast,
    /// Accepted by the node's pool, awaiting inclusion.
    Pending,
    /// Included in a block with the status flag set.
    MinedSuccess,
    /// Included in a block with the status flag cleared.
    MinedReverted,
}

/// What one poll of the node reported.
#[derive(Clone, Debug)]
pub enum PollEvent {
    /// The pool acknowledges the hash; no receipt yet.
    PoolAccepted,
    /// No receipt yet.
    NoReceiptYet,
    /// A receipt for the awaited transaction.
    ReceiptSeen(Receipt),
}

/// What the caller should do after a poll.
#[derive(Clone, Debug)]
pub enum PollDecision {
    /// Wait the bounded interval and poll again.
    Continue,
    /// The caller's bound elapsed without a receipt: give up for now. The
    /// transaction's fate is unknown, not failed.
    TimedOut,
    /// The transaction was mined; carries its receipt.
    Mined(Receipt),
}

/// The polling loop's state: the transaction awaited, how far its
/// lifecycle has been observed, and the caller's time bound.
#[derive(Clone, Debug)]
pub struct Tracker {
    pub pending: PendingTransaction,
    pub state: TrackState,
    /// Time waited so far, in the caller's unit.
    pub waited: u64,
    /// The caller-supplied bound on waiting, in the same unit.
    pub timeout: u64,
}

impl Tracker {
    /// Starts tracking a freshly broadcast transaction under a time bound.
    pub fn start(pending: PendingTransaction, timeout: u64) -> (r: Tracker)
        ensures
            r.pending.hash.bytes@ == pending.hash.bytes@,
            r.pending.submitted_at == pending.submitted_at,
            r.state == TrackState::Broadcast,
            r.waited == 0,
            r.timeout == timeout,
    {
        Tracker { pending, state: TrackState::Broadcast, waited: 0, timeout }
    }

    /// Allows further polling on the same hash under a fresh bound, after
    /// an earlier bound elapsed.
    pub fn renew(&mut self, timeout: u64)
        ensures
            final(self).pending.hash.bytes@ == old(self).pending.hash.bytes@,
            final(self).pending.submitted_at == old(self).pending.submitted_at,
            final(self).state == old(self).state,
            final(self).waited == 0,
            final(self).timeout == timeout,
    {
        self.waited = 0;
        self.timeout = timeout;
    }

    /// One poll: feeds what the node reported and how much time has been
    /// waited in all, and decides what to do next.
    ///
    /// A receipt is always honoured, whatever the state and however much
    /// time has passed — a tracker that timed out before can still observe
    /// the transaction mined. Without a receipt, the tracker keeps polling
    /// until the bound elapses and then reports `TimedOut`. In every case
    /// the awaited hash is kept exactly as it was: no outcome mutates or
    /// discards it.
    pub fn step(&mut self, ev: PollEvent, waited: u64) -> (r: PollDecision)
        ensures
            final(self).pending.hash.bytes@ == old(self).pending.hash.bytes@,
            final(self).pending.submitted_at == old(self).pending.submitted_at,
            final(self).timeout == old(self).timeout,
            match ev {
                PollEvent::ReceiptSeen(rc) => {
                    &&& r matches PollDecision::Mined(out) && out == rc
                    &&& final(self).state == (if rc.success {
                        TrackState::MinedSuccess
                    } else {
                        TrackState::MinedReverted
                    })
                },
                PollEvent::PoolAccepted => {
                    &&& final(self).state == TrackState::Pending
                    &&& final(self).waited == waited
                    &&& if waited >= old(self).timeout {
                        r is TimedOut
                    } else {
                        r is Continue
                    }
                },
                PollEvent::NoReceiptYet => {
                    &&& final(self).state == old(self).state
                    &&& final(self).waited == waited
                    &&& if waited >= old(self).timeout {
                        r is TimedOut
                    } else {
                        r is Continue
                    }
                },
            },
    {
        match ev {
            PollEvent::ReceiptSeen(rc) => {
                self.state = if rc.success {
                    TrackState::MinedSuccess
                } else {
                    TrackState::MinedReverted
                };
                PollDecision::Mined(rc)
            },
            PollEvent::PoolAccepted => {
                self.state = TrackState::Pending;
                self.waited = waited;
                if waited >= self.timeout {
                    PollDecision::TimedOut
                } else {
                    PollDecision::Continue
                }
            },
            PollEvent::NoReceiptYet => {
                self.waited = waited;
                if waited >= self.timeout {
                    PollDecision::TimedOut
                } else {
                    PollDecision::Continue
                }
            },
        }
    }
}

} // verus!
