use chaincore::abi::{encode_call, encode_call_payload, decode_return, encode_values,
    decode_values, Call, Interface, MethodSig, ParamType, Value};
use chaincore::error::ChainError;
use chaincore::hex::{parse_hex, render_hex};
use chaincore::types::{Address, Uint256};

fn addr(fill: u8) -> Address {
    Address::from_bytes(vec![fill; 20]).unwrap()
}

fn echo_iface() -> Interface {
    Interface {
        methods: vec![
            MethodSig {
                name: b"echo".to_vec(),
                params: vec![ParamType::Address, ParamType::Uint, ParamType::Bool],
                returns: vec![ParamType::Address, ParamType::Uint, ParamType::Bool],
            },
            MethodSig {
                name: b"echoDyn".to_vec(),
                params: vec![ParamType::Str, ParamType::UintArray, ParamType::Uint],
                returns: vec![ParamType::Str, ParamType::UintArray, ParamType::Uint],
            },
        ],
    }
}

fn values_equal(a: &Value, b: &Value) -> bool {
    match (a, b) {
        (Value::Address(x), Value::Address(y)) => x.bytes == y.bytes,
        (Value::Uint(x), Value::Uint(y)) => x.hi == y.hi && x.lo == y.lo,
        (Value::Bool(x), Value::Bool(y)) => x == y,
        (Value::Str(x), Value::Str(y)) => x == y,
        (Value::UintArray(x), Value::UintArray(y)) => {
            x.len() == y.len() && x.iter().zip(y.iter()).all(|(p, q)| p.hi == q.hi && p.lo == q.lo)
        },
        _ => false,
    }
}

#[test]
fn round_trip_static_args_through_echo() {
    let iface = echo_iface();
    let args = vec![
        Value::Address(addr(0xBB)),
        Value::Uint(Uint256::from_u64(123456789)),
        Value::Bool(true),
    ];
    let payload = encode_call(&iface, &b"echo".to_vec(), &args).unwrap();
    // A mock node that echoes the input hands the argument encoding back.
    let echoed: Vec<u8> = payload[4..].to_vec();
    let decoded = decode_return(&iface.methods[0], &echoed).unwrap();
    assert_eq!(decoded.len(), args.len());
    for (d, a) in decoded.iter().zip(args.iter()) {
        assert!(values_equal(d, a));
    }
}

#[test]
fn round_trip_dynamic_args_through_echo() {
    let iface = echo_iface();
    let args = vec![
        Value::Str(b"hello, chain".to_vec()),
        Value::UintArray(vec![
            Uint256::from_u64(7),
            Uint256::from_u128(1 << 90),
            Uint256 { hi: 3, lo: 5 },
        ]),
        Value::Uint(Uint256::from_u64(42)),
    ];
    let payload = encode_call(&iface, &b"echoDyn".to_vec(), &args).unwrap();
    let echoed: Vec<u8> = payload[4..].to_vec();
    let decoded = decode_return(&iface.methods[1], &echoed).unwrap();
    assert_eq!(decoded.len(), args.len());
    for (d, a) in decoded.iter().zip(args.iter()) {
        assert!(values_equal(d, a));
    }
}

#[test]
fn round_trip_empty_tuple() {
    let vals: Vec<Value> = vec![];
    let enc = encode_values(&vals);
    assert!(enc.is_empty());
    let decoded = decode_values(&vec![], &enc).unwrap();
    assert!(decoded.is_empty());
}

#[test]
fn transfer_selector_matches_known_value() {
    // The selector of transfer(address,uint256) is a fixed, well-known
    // constant of the encoding; a hasher that echoed its input would fail.
    let iface = Interface {
        methods: vec![MethodSig {
            name: b"transfer".to_vec(),
            params: vec![ParamType::Address, ParamType::Uint],
            returns: vec![ParamType::Bool],
        }],
    };
    let args = vec![Value::Address(addr(0x11)), Value::Uint(Uint256::from_u64(1))];
    let payload = encode_call(&iface, &b"transfer".to_vec(), &args).unwrap();
    assert_eq!(&payload[..4], &[0xa9, 0x05, 0x9c, 0xbb]);
}

#[test]
fn encode_rejects_unknown_method() {
    let iface = echo_iface();
    let r = encode_call(&iface, &b"missing".to_vec(), &vec![]);
    assert!(matches!(r, Err(ChainError::EncodingError(_))));
}

#[test]
fn encode_rejects_wrong_argument_count() {
    let iface = echo_iface();
    let r = encode_call(&iface, &b"echo".to_vec(), &vec![Value::Bool(true)]);
    assert!(matches!(r, Err(ChainError::EncodingError(_))));
}

#[test]
fn encode_rejects_mismatched_argument_type() {
    let iface = echo_iface();
    let args = vec![
        Value::Uint(Uint256::from_u64(1)),
        Value::Uint(Uint256::from_u64(2)),
        Value::Bool(false),
    ];
    let r = encode_call(&iface, &b"echo".to_vec(), &args);
    assert!(matches!(r, Err(ChainError::EncodingError(_))));
}

#[test]
fn encoded_word_layout_is_exact() {
    let vals = vec![Value::Address(addr(0xAB)), Value::Uint(Uint256::from_u64(0x0102))];
    let enc = encode_values(&vals);
    assert_eq!(enc.len(), 64);
    let mut expected = vec![0u8; 12];
    expected.extend_from_slice(&[0xAB; 20]);
    let mut word2 = vec![0u8; 30];
    word2.extend_from_slice(&[0x01, 0x02]);
    expected.extend_from_slice(&word2);
    assert_eq!(enc, expected);
}

#[test]
fn decode_rejects_truncated_word() {
    let types = vec![ParamType::Uint];
    let bytes = vec![0u8; 31];
    assert!(decode_values(&types, &bytes).is_none());
}

#[test]
fn decode_rejects_trailing_bytes() {
    let types = vec![ParamType::Uint];
    let mut bytes = vec![0u8; 32];
    bytes.push(0);
    assert!(decode_values(&types, &bytes).is_none());
}

#[test]
fn decode_rejects_nonzero_address_padding() {
    let types = vec![ParamType::Address];
    let mut bytes = vec![0u8; 32];
    bytes[0] = 1;
    assert!(decode_values(&types, &bytes).is_none());
}

#[test]
fn decode_rejects_out_of_range_bool() {
    let types = vec![ParamType::Bool];
    let mut bytes = vec![0u8; 32];
    bytes[31] = 2;
    assert!(decode_values(&types, &bytes).is_none());
}

#[test]
fn decode_accepts_zero_word_as_zero() {
    let types = vec![ParamType::Uint];
    let bytes = vec![0u8; 32];
    let vals = decode_values(&types, &bytes).unwrap();
    assert!(matches!(&vals[..], [Value::Uint(u)] if u.hi == 0 && u.lo == 0));
}

#[test]
fn hex_render_is_canonical_lowercase() {
    let r = render_hex(&vec![0xAB, 0x00, 0x1F]);
    assert_eq!(r, b"0xab001f".to_vec());
}

#[test]
fn hex_parse_inverts_render() {
    let bytes: Vec<u8> = (0u8..=255).collect();
    let text = render_hex(&bytes);
    let back = parse_hex(&text).unwrap();
    assert_eq!(back, bytes);
}

#[test]
fn hex_parse_is_case_insensitive() {
    let lower = parse_hex(&b"0xaabbccdd".to_vec()).unwrap();
    let upper = parse_hex(&b"0xAABBCCDD".to_vec()).unwrap();
    let mixed = parse_hex(&b"0xAaBbCcDd".to_vec()).unwrap();
    assert_eq!(lower, vec![0xAA, 0xBB, 0xCC, 0xDD]);
    assert_eq!(upper, lower);
    assert_eq!(mixed, lower);
}

#[test]
fn hex_parse_rejects_malformed_text() {
    assert!(parse_hex(&b"".to_vec()).is_none());
    assert!(parse_hex(&b"0x123".to_vec()).is_none());
    assert!(parse_hex(&b"ab01".to_vec()).is_none());
    assert!(parse_hex(&b"0xzz".to_vec()).is_none());
}

#[test]
fn address_wraps_only_twenty_bytes() {
    assert!(Address::from_bytes(vec![0; 20]).is_some());
    assert!(Address::from_bytes(vec![0; 19]).is_none());
    assert!(Address::from_bytes(vec![0; 32]).is_none());
}

#[test]
fn uint256_conversions_are_exact() {
    let u = Uint256::from_u64(500);
    assert_eq!(u.to_u128(), Some(500));
    assert!(!u.is_zero());
    assert!(Uint256::zero().is_zero());
    let big = Uint256 { hi: 1, lo: 0 };
    assert_eq!(big.to_u128(), None);
}

#[test]
fn call_payload_matches_direct_encoding() {
    let iface = echo_iface();
    let args = vec![
        Value::Address(addr(0x01)),
        Value::Uint(Uint256::from_u64(2)),
        Value::Bool(false),
    ];
    let read = Call { method: b"echo".to_vec(), args: args.clone(), mutating: false };
    let write = Call { method: b"echo".to_vec(), args: args.clone(), mutating: true };
    let direct = encode_call(&iface, &b"echo".to_vec(), &args).unwrap();
    assert_eq!(encode_call_payload(&iface, &read).unwrap(), direct);
    // The mutability flag routes the call; it does not change the payload.
    assert_eq!(encode_call_payload(&iface, &write).unwrap(), direct);
}
