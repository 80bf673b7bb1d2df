//! The deployment orchestrator: building a contract-creation transaction,
//! and reconciling its receipt into a deployment record.

use vstd::prelude::*;
use crate::types::{Address, Uint256};
use crate::client::LegacyTransaction;
use crate::lifecycle::Receipt;
use crate::error::ChainError;
use crate::hex::hex_str;
use crate::abi::ascii_bytes;
use crate::bytes::push_bytes;

verus! {

/// The contract bytecode artifact the build step supplies; here a minimal
/// placeholder stub standing in for the compiled contract.
pub fn load_contract_bytecode() -> (r: Vec<u8>)
    ensures
        r@ == seq![0x60u8, 0x80u8, 0x60u8, 0x40u8, 0x52u8],
{
    let mut v: Vec<u8> = Vec::new();
    v.push(0x60);
    v.push(0x80);
    v.push(0x60);
    v.push(0x40);
    v.push(0x52);
    proof {
        assert(v@ =~= seq![0x60u8, 0x80u8, 0x60u8, 0x40u8, 0x52u8]);
    }
    v
}

/// Builds the contract-creation transaction: no target address, payload =
/// bytecode followed by the encoded constructor arguments, carried value
/// zero. Enforced before any submission: the deploying account's balance
/// must be non-zero; with an empty account the transaction is refused here,
/// as a `TransactionRejected`, and nothing reaches the network.
pub fn prepare_deployment(
    bytecode: &Vec<u8>,
    ctor_args: &Vec<u8>,
    balance: &Uint256,
    nonce: u64,
    gas_price: u64,
    gas_limit: u64,
) -> (r: Result<LegacyTransaction, ChainError>)
    ensures
        balance.value() == 0 ==> (r matches Err(e) && e is TransactionRejected),
        balance.value() > 0 ==> (r matches Ok(tx) && {
            &&& tx.to is None
            &&& tx.data@ == bytecode@ + ctor_args@
            &&& tx.nonce == nonce
            &&& tx.gas_price == gas_price
            &&& tx.gas_limit == gas_limit
            &&& tx.value.value() == 0
        }),
{
    if balance.is_zero() {
        return Err(ChainError::TransactionRejected(ascii_bytes("account has no balance")));
    }
    let mut data: Vec<u8> = Vec::new();
    push_bytes(&mut data, bytecode);
    push_bytes(&mut data, ctor_args);
    Ok(
        LegacyTransaction {
            nonce,
            gas_price,
            gas_limit,
            to: None,
            value: Uint256::zero(),
            data,
        },
    )
}

/// The locally persisted outcome of a successful deployment: four textual
/// fields, three of them optional.
#[derive(Clone, Debug)]
pub struct DeploymentRecord {
    /// Hex text of the created contract's address.
    pub contract_address: Option<Vec<u8>>,
    /// Hex text of the deploying account's address.
    pub deployer_address: Option<Vec<u8>>,
    /// The network label.
    pub network: Vec<u8>,
    /// Hex text of the deployment transaction's hash.
    pub deployment_tx: Option<Vec<u8>>,
}

/// Reconciles a deployment's receipt. A receipt carrying a created-contract
/// address yields the record to persist, its address field exactly the
/// canonical hex text of the receipt's address bytes; a receipt without one
/// — a malformed or reverted creation — yields `DeploymentFailed`, and no
/// record exists to be written.
pub fn conclude_deployment(receipt: &Receipt, deployer: &Address, network: Vec<u8>) -> (r: Result<
    DeploymentRecord,
    ChainError,
>)
    ensures
        match receipt.contract_address {
            Some(created) => r matches Ok(rec) && {
                &&& rec.contract_address matches Some(t) && t@ == hex_str(created.bytes@)
                &&& rec.deployer_address matches Some(t) && t@ == hex_str(deployer.bytes@)
                &&& rec.network@ == network@
                &&& rec.deployment_tx matches Some(t) && t@ == hex_str(
                    receipt.transaction_hash.bytes@,
                )
            },
            None => r matches Err(e) && e is DeploymentFailed,
        },
{
    match &receipt.contract_address {
        Some(created) => Ok(
            DeploymentRecord {
                contract_address: Some(crate::hex::render_hex(&created.bytes)),
                deployer_address: Some(crate::hex::render_hex(&deployer.bytes)),
                network,
                deployment_tx: Some(crate::hex::render_hex(&receipt.transaction_hash.bytes)),
            },
        ),
        None => Err(ChainError::DeploymentFailed),
    }
}

} // verus!
