use chaincore::abi::{encode_call, Interface, MethodSig, ParamType, Value};
use chaincore::client::{balance_message, build_call_transaction, decode_balance,
    interpret_broadcast, read_call_result, BroadcastOutcome, CallOutcome, PendingTransaction};
use chaincore::deploy::{conclude_deployment, load_contract_bytecode, prepare_deployment,
    DeploymentRecord};
use chaincore::error::ChainError;
use chaincore::hex::render_hex;
use chaincore::lifecycle::{PollDecision, PollEvent, Receipt, TrackState, Tracker};
use chaincore::record::render_record;
use chaincore::types::{Address, TxHash, Uint256};

fn addr(fill: u8) -> Address {
    Address::from_bytes(vec![fill; 20]).unwrap()
}

fn hash(fill: u8) -> TxHash {
    TxHash::from_bytes(vec![fill; 32]).unwrap()
}

fn pending(fill: u8) -> PendingTransaction {
    PendingTransaction { hash: hash(fill), submitted_at: 1000 }
}

fn receipt(success: bool, created: Option<Address>) -> Receipt {
    Receipt {
        transaction_hash: hash(0x77),
        block_number: 42,
        gas_used: Uint256::from_u64(21000),
        success,
        contract_address: created,
        logs: vec![],
    }
}

fn uint_word(v: u64) -> Vec<u8> {
    let mut w = vec![0u8; 24];
    w.extend_from_slice(&v.to_be_bytes());
    w
}

#[test]
fn reverting_call_yields_call_reverted() {
    let m = MethodSig {
        name: b"getBalance".to_vec(),
        params: vec![ParamType::Address],
        returns: vec![ParamType::Uint],
    };
    let r = read_call_result(&m, CallOutcome::Reverted(b"no such account".to_vec()));
    match r {
        Err(ChainError::CallReverted(reason)) => assert_eq!(reason, b"no such account".to_vec()),
        other => panic!("expected CallReverted, got {:?}", other),
    }
}

#[test]
fn unreachable_endpoint_yields_transport_failure() {
    let m = MethodSig { name: b"f".to_vec(), params: vec![], returns: vec![] };
    let r = read_call_result(&m, CallOutcome::Unreachable(b"connection refused".to_vec()));
    assert!(matches!(r, Err(ChainError::TransportFailure(_))));
}

#[test]
fn malformed_output_yields_decoding_error_not_default() {
    let m = MethodSig {
        name: b"getBalance".to_vec(),
        params: vec![ParamType::Address],
        returns: vec![ParamType::Uint],
    };
    let r = read_call_result(&m, CallOutcome::Output(vec![0u8; 7]));
    assert!(matches!(r, Err(ChainError::DecodingError(_))));
}

#[test]
fn zero_balance_decodes_to_exactly_zero() {
    let r = decode_balance(&vec![0u8; 32]).unwrap();
    assert!(r.is_zero());
    assert_eq!(r.to_u128(), Some(0));
    // A malformed reply is an error, never a zero stand-in.
    assert!(matches!(decode_balance(&vec![0u8; 31]), Err(ChainError::DecodingError(_))));
}

#[test]
fn stale_nonce_rejection_surfaces_as_transaction_rejected() {
    let r = interpret_broadcast(
        BroadcastOutcome::Rejected(b"nonce too low".to_vec()),
        7,
    );
    match r {
        Err(ChainError::TransactionRejected(msg)) => assert_eq!(msg, b"nonce too low".to_vec()),
        other => panic!("expected TransactionRejected, got {:?}", other),
    }
}

#[test]
fn accepted_broadcast_yields_pending_transaction() {
    let r = interpret_broadcast(BroadcastOutcome::Accepted(vec![0x77; 32]), 1234).unwrap();
    assert_eq!(r.hash.bytes, vec![0x77; 32]);
    assert_eq!(r.submitted_at, 1234);
    let bad = interpret_broadcast(BroadcastOutcome::Accepted(vec![0x77; 31]), 1234);
    assert!(matches!(bad, Err(ChainError::DecodingError(_))));
}

#[test]
fn timeout_keeps_hash_and_receipt_still_observable() {
    let mut t = Tracker::start(pending(0x5A), 30);
    let d1 = t.step(PollEvent::PoolAccepted, 10);
    assert!(matches!(d1, PollDecision::Continue));
    assert_eq!(t.state, TrackState::Pending);
    let d2 = t.step(PollEvent::NoReceiptYet, 30);
    assert!(matches!(d2, PollDecision::TimedOut));
    // The timeout neither mutated nor discarded the awaited hash.
    assert_eq!(t.pending.hash.bytes, vec![0x5A; 32]);
    // A fresh timeout on the same tracker can still observe the receipt.
    t.renew(60);
    assert_eq!(t.pending.hash.bytes, vec![0x5A; 32]);
    let d3 = t.step(PollEvent::ReceiptSeen(receipt(true, None)), 5);
    match d3 {
        PollDecision::Mined(rc) => assert!(rc.success),
        other => panic!("expected Mined, got {:?}", other),
    }
    assert_eq!(t.state, TrackState::MinedSuccess);
}

#[test]
fn reverted_receipt_is_distinguished_from_success() {
    let mut t = Tracker::start(pending(0x01), 10);
    let d = t.step(PollEvent::ReceiptSeen(receipt(false, None)), 1);
    assert!(matches!(d, PollDecision::Mined(rc) if !rc.success));
    assert_eq!(t.state, TrackState::MinedReverted);
}

#[test]
fn deployment_record_address_matches_receipt_exactly() {
    let created = addr(0xAA);
    let rc = receipt(true, Some(created.clone()));
    let rec = conclude_deployment(&rc, &addr(0xBB), b"monad_testnet".to_vec()).unwrap();
    assert_eq!(rec.contract_address, Some(render_hex(&created.bytes)));
    assert_eq!(rec.contract_address, Some(b"0xaaaaaaaaaaaaaaaaaaaaaaaaaaaaaaaaaaaaaaaa".to_vec()));
    assert_eq!(rec.deployer_address, Some(b"0xbbbbbbbbbbbbbbbbbbbbbbbbbbbbbbbbbbbbbbbb".to_vec()));
    assert_eq!(rec.network, b"monad_testnet".to_vec());
    assert_eq!(rec.deployment_tx, Some(render_hex(&rc.transaction_hash.bytes)));
}

#[test]
fn deployment_without_contract_address_fails() {
    let bytecode = load_contract_bytecode();
    assert_eq!(bytecode, vec![0x60, 0x80, 0x60, 0x40, 0x52]);
    let tx = prepare_deployment(&bytecode, &vec![], &Uint256::from_u64(1), 0, 20, 100000)
        .unwrap();
    assert_eq!(tx.data, bytecode);
    // The mined receipt carries no contract address: the deployment failed,
    // and there is no record to write.
    let rc = receipt(true, None);
    let r = conclude_deployment(&rc, &addr(0xBB), b"monad_testnet".to_vec());
    assert!(matches!(r, Err(ChainError::DeploymentFailed)));
}

#[test]
fn deployment_requires_nonzero_balance() {
    let bytecode = load_contract_bytecode();
    let r = prepare_deployment(&bytecode, &vec![], &Uint256::zero(), 0, 20, 100000);
    assert!(matches!(r, Err(ChainError::TransactionRejected(_))));
    let tx = prepare_deployment(&bytecode, &vec![0x01, 0x02], &Uint256::from_u64(5), 3, 20, 9)
        .unwrap();
    assert!(tx.to.is_none());
    assert_eq!(tx.nonce, 3);
    assert_eq!(tx.data, vec![0x60, 0x80, 0x60, 0x40, 0x52, 0x01, 0x02]);
}

#[test]
fn get_user_balance_scenario_decodes_five_hundred() {
    let contract = addr(0xAA);
    let iface = Interface {
        methods: vec![MethodSig {
            name: b"getUserBalance".to_vec(),
            params: vec![ParamType::Address, ParamType::Address],
            returns: vec![ParamType::Uint],
        }],
    };
    let user = addr(0xBB);
    let token = addr(0xCC);
    let args = vec![Value::Address(user), Value::Address(token)];
    let payload = encode_call(&iface, &b"getUserBalance".to_vec(), &args).unwrap();
    assert_eq!(payload.len(), 4 + 64);
    // The mock node at the contract's address replies with the integer 500.
    assert_eq!(contract.bytes.len(), 20);
    let reply = CallOutcome::Output(uint_word(500));
    let vals = read_call_result(&iface.methods[0], reply).unwrap();
    let amount = match &vals[..] {
        [Value::Uint(u)] => u.to_u128().unwrap(),
        other => panic!("expected one uint, got {:?}", other),
    };
    assert_eq!(amount, 500);
    let line = balance_message(amount);
    assert_eq!(line, b"Balance: 500 tokens".to_vec());
}

#[test]
fn balance_message_renders_zero_and_large_amounts() {
    assert_eq!(balance_message(0), b"Balance: 0 tokens".to_vec());
    assert_eq!(balance_message(10), b"Balance: 10 tokens".to_vec());
    assert_eq!(
        balance_message(123456789012345678901234567890),
        b"Balance: 123456789012345678901234567890 tokens".to_vec()
    );
}

#[test]
fn call_transaction_carries_target_and_payload() {
    let tx = build_call_transaction(9, 20000000000, 100000, addr(0x42), vec![1, 2, 3]);
    assert_eq!(tx.nonce, 9);
    assert_eq!(tx.gas_price, 20000000000);
    assert_eq!(tx.gas_limit, 100000);
    assert_eq!(tx.to.unwrap().bytes, vec![0x42; 20]);
    assert!(tx.value.is_zero());
    assert_eq!(tx.data, vec![1, 2, 3]);
}

#[test]
fn record_json_has_exactly_four_fields() {
    let rec = DeploymentRecord {
        contract_address: Some(b"0xaaaa".to_vec()),
        deployer_address: None,
        network: b"monad_testnet".to_vec(),
        deployment_tx: Some(b"0x7777".to_vec()),
    };
    let json = render_record(&rec);
    assert_eq!(
        String::from_utf8(json).unwrap(),
        "{\"contract_address\":\"0xaaaa\",\"deployer_address\":null,\
         \"network\":\"monad_testnet\",\"deployment_tx\":\"0x7777\"}"
    );
}

#[test]
fn error_labels_name_each_kind() {
    assert_eq!(ChainError::AwaitTimeout.label(), "await timeout");
    assert_eq!(ChainError::DeploymentFailed.label(), "deployment failed");
    assert_eq!(ChainError::CallReverted(vec![]).label(), "call reverted");
}

#[test]
fn endpoint_invariant_accepts_only_http_urls() {
    let ok = |s: &str| chaincore::client::check_endpoint(&s.as_bytes().to_vec());
    assert!(ok("http://localhost:8545"));
    assert!(ok("https://rpc.testnet.monad.xyz"));
    assert!(!ok("http://"));
    assert!(!ok("https://"));
    assert!(!ok("ftp://host"));
    assert!(!ok(""));
}
