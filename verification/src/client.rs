//! Read and signing clients: every decision made around a network call, as
//! a pure function of the values the network handed back.
//!
//! The transport itself — reaching the JSON-RPC endpoint, awaiting the
//! reply — is the caller's. The caller reports what it observed as a
//! `CallOutcome` or `BroadcastOutcome`, and the functions here reconcile
//! that observation into a typed result or the error owed for it.

use vstd::prelude::*;
use crate::bytes::{
    pow256, be_bytes, be_val, be_slice_val, lemma_be_val_append, lemma_be_bytes_of_be_val,
};
use crate::types::{Address, TxHash, Uint256};
use crate::abi::{MethodSig, Value, dec_tuple, models_of, values_wf, decode_return, ascii_bytes};
use crate::error::ChainError;

verus! {

/// The ASCII decimal digits of a number, most significant first.
pub open spec fn dec_digits(v: nat) -> Seq<u8>
    decreases v,
{
    if v < 10 {
        seq![(48 + v) as u8]
    } else {
        dec_digits(v / 10).push((48 + v % 10) as u8)
    }
}

/// Renders a number as ASCII decimal digits.
pub fn decimal_bytes(v: u128) -> (r: Vec<u8>)
    ensures
        r@ == dec_digits(v as nat),
    decreases v,
{
    if v < 10 {
        let mut out: Vec<u8> = Vec::new();
        out.push(48 + (v as u8));
        proof {
            assert(out@ =~= dec_digits(v as nat));
        }
        out
    } else {
        let mut out = decimal_bytes(v / 10);
        out.push(48 + ((v % 10) as u8));
        out
    }
}

/// The display line for a balance: `Balance: <amount> tokens`.
pub open spec fn balance_text(v: nat) -> Seq<u8> {
    "Balance: "@.map_values(|c: char| c as u8) + dec_digits(v) + " tokens"@.map_values(
        |c: char| c as u8,
    )
}

/// Renders the display line for a balance.
pub fn balance_message(v: u128) -> (r: Vec<u8>)
    ensures
        r@ == balance_text(v as nat),
{
    let mut out = ascii_bytes("Balance: ");
    let digits = decimal_bytes(v);
    crate::bytes::push_bytes(&mut out, &digits);
    let suffix = ascii_bytes(" tokens");
    crate::bytes::push_bytes(&mut out, &suffix);
    out
}

/// Whether the endpoint text is an HTTP(S) URL: a scheme prefix with a
/// nonempty remainder. A client is constructed only for such an endpoint.
pub open spec fn endpoint_wf(s: Seq<u8>) -> bool {
    ||| (s.len() > 7 && s.subrange(0, 7) == crate::bytes::lit("http://"@))
    ||| (s.len() > 8 && s.subrange(0, 8) == crate::bytes::lit("https://"@))
}

/// Decides the endpoint invariant for a URL's bytes.
pub fn check_endpoint(url: &Vec<u8>) -> (r: bool)
    ensures
        r == endpoint_wf(url@),
{
    if url.len() > 7 {
        let prefix = crate::bytes::copy_range(url, 0, 7);
        let expected = ascii_bytes("http://");
        if crate::types::bytes_eq(&prefix, &expected) {
            return true;
        }
    }
    if url.len() > 8 {
        let prefix = crate::bytes::copy_range(url, 0, 8);
        let expected = ascii_bytes("https://");
        if crate::types::bytes_eq(&prefix, &expected) {
            return true;
        }
    }
    false
}

/// What the transport observed for a read-only call: the contract's output
/// bytes, an explicit revert with its reason bytes, or no reply at all.
#[derive(Clone, Debug)]
pub enum CallOutcome {
    Output(Vec<u8>),
    Reverted(Vec<u8>),
    Unreachable(Vec<u8>),
}

/// Reconciles a read call's outcome against the declared returns of `m`.
/// Output bytes are decoded strictly; a revert always surfaces as
/// `CallReverted` carrying the reason — never as a defaulted value — and an
/// unreachable endpoint as `TransportFailure`.
pub fn read_call_result(m: &MethodSig, outcome: CallOutcome) -> (r: Result<Vec<Value>, ChainError>)
    ensures
        match outcome {
            CallOutcome::Output(b) => match dec_tuple(m.returns@, b@) {
                Some(ms) => r matches Ok(vs) && models_of(vs@) == ms && values_wf(vs@),
                None => r matches Err(e) && e is DecodingError,
            },
            CallOutcome::Reverted(reason) => r matches Err(e) && (e matches
                ChainError::CallReverted(rb) && rb@ == reason@),
            CallOutcome::Unreachable(msg) => r matches Err(e) && (e matches
                ChainError::TransportFailure(mb) && mb@ == msg@),
        },
{
    match outcome {
        CallOutcome::Output(b) => decode_return(m, &b),
        CallOutcome::Reverted(reason) => Err(ChainError::CallReverted(reason)),
        CallOutcome::Unreachable(msg) => Err(ChainError::TransportFailure(msg)),
    }
}

/// Decodes a balance word: the 32-byte big-endian amount a balance query
/// returns. Succeeds exactly on 32-byte input, and returns the amount those
/// bytes denote — an account with zero funds decodes to exactly zero, which
/// is a successful result, distinct from any `DecodingError`.
pub fn decode_balance(b: &Vec<u8>) -> (r: Result<Uint256, ChainError>)
    ensures
        match r {
            Ok(u) => {
                &&& b@.len() == 32
                &&& u.value() == be_val(b@)
                &&& b@ == be_bytes(u.value(), 32)
            },
            Err(e) => e is DecodingError && b@.len() != 32,
        },
{
    if b.len() != 32 {
        return Err(ChainError::DecodingError(ascii_bytes("balance word")));
    }
    let hi = be_slice_val(b, 0, 16);
    let lo = be_slice_val(b, 16, 32);
    let u = Uint256 { hi, lo };
    proof {
        assert(b@ =~= b@.subrange(0, 16) + b@.subrange(16, 32));
        lemma_be_val_append(b@.subrange(0, 16), b@.subrange(16, 32));
        assert(u.value() == be_val(b@));
        lemma_be_bytes_of_be_val(b@);
    }
    Ok(u)
}

/// A legacy-format transaction: sequence number, flat gas price, gas limit,
/// optional target (none creates a contract), value, and payload.
#[derive(Clone, Debug)]
pub struct LegacyTransaction {
    pub nonce: u64,
    pub gas_price: u64,
    pub gas_limit: u64,
    pub to: Option<Address>,
    pub value: Uint256,
    pub data: Vec<u8>,
}

/// Builds the transaction that calls a contract: the target is the contract
/// address, the payload the encoded call, the carried value zero.
pub fn build_call_transaction(nonce: u64, gas_price: u64, gas_limit: u64, to: Address, payload: Vec<
    u8,
>) -> (r: LegacyTransaction)
    ensures
        r.nonce == nonce,
        r.gas_price == gas_price,
        r.gas_limit == gas_limit,
        r.to matches Some(a) && a.bytes@ == to.bytes@,
        r.value.value() == 0,
        r.data@ == payload@,
{
    LegacyTransaction {
        nonce,
        gas_price,
        gas_limit,
        to: Some(to),
        value: Uint256::zero(),
        data: payload,
    }
}

/// What the node replied to a broadcast attempt: acceptance into its pool
/// with the transaction's hash, an explicit refusal with its reason, or no
/// reply at all.
#[derive(Clone, Debug)]
pub enum BroadcastOutcome {
    Accepted(Vec<u8>),
    Rejected(Vec<u8>),
    Unreachable(Vec<u8>),
}

/// A transaction that has been broadcast and not yet observed in a block:
/// its identifying hash, and when it was submitted.
#[derive(Clone, Debug)]
pub struct PendingTransaction {
    pub hash: TxHash,
    pub submitted_at: u64,
}

/// Reconciles a broadcast outcome. Acceptance with a well-formed 32-byte
/// hash yields the pending transaction immediately — no waiting for
/// inclusion, and no retry here or anywhere in the layer. Any refusal, a
/// stale or duplicate sequence number among them, surfaces as
/// `TransactionRejected` carrying the node's reason: a refused broadcast is
/// never reported as an accepted one.
pub fn interpret_broadcast(outcome: BroadcastOutcome, submitted_at: u64) -> (r: Result<
    PendingTransaction,
    ChainError,
>)
    ensures
        match outcome {
            BroadcastOutcome::Accepted(h) => {
                if h@.len() == 32 {
                    r matches Ok(p) && p.hash.bytes@ == h@ && p.hash.wf() && p.submitted_at
                        == submitted_at
                } else {
                    r matches Err(e) && e is DecodingError
                }
            },
            BroadcastOutcome::Rejected(msg) => r matches Err(e) && (e matches
                ChainError::TransactionRejected(mb) && mb@ == msg@),
            BroadcastOutcome::Unreachable(msg) => r matches Err(e) && (e matches
                ChainError::TransportFailure(mb) && mb@ == msg@),
        },
{
    match outcome {
        BroadcastOutcome::Accepted(h) => match TxHash::from_bytes(h) {
            Some(hash) => Ok(PendingTransaction { hash, submitted_at }),
            None => Err(ChainError::DecodingError(ascii_bytes("transaction hash"))),
        },
        BroadcastOutcome::Rejected(msg) => Err(ChainError::TransactionRejected(msg)),
        BroadcastOutcome::Unreachable(msg) => Err(ChainError::TransportFailure(msg)),
    }
}

} // verus!
