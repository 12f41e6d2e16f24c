use anvil::dispatch::{handle_read, handle_write, Response};
use anvil::encode::{encode_bytes, encode_quantity, encode_word};
use anvil::request::{
    decode_batch, BlockNumber, EthRequest, EvmMineOptions, Index, JsonNumber, JsonValue,
    RequestError,
};
use anvil::state::StateDb;
use anvil::types::{Address, H256, U256};

fn json(v: serde_json::Value) -> JsonValue {
    match v {
        serde_json::Value::Null => JsonValue::Null,
        serde_json::Value::Bool(b) => JsonValue::Bool(b),
        serde_json::Value::Number(n) => match n.as_u64() {
            Some(u) => JsonValue::Number(JsonNumber::Unsigned(u)),
            None => JsonValue::Number(JsonNumber::Other(n.to_string())),
        },
        serde_json::Value::String(s) => JsonValue::String(s),
        serde_json::Value::Array(a) => JsonValue::Array(a.into_iter().map(json).collect()),
        serde_json::Value::Object(m) => {
            JsonValue::Object(m.into_iter().map(|(k, v)| (k, json(v))).collect())
        }
    }
}

fn decode_text(s: &str) -> Result<EthRequest, RequestError> {
    let v: serde_json::Value = serde_json::from_str(s).unwrap();
    let method = v["method"].as_str().unwrap().to_string();
    let params = v.get("params").cloned().unwrap_or(serde_json::Value::Null);
    EthRequest::decode(&method, json(params))
}

#[test]
fn test_serde_eth_storage() {
    let s = r#"{"method": "eth_getStorageAt", "params": ["0x295a70b2de5e3953354a6a8344e616ed314d7251", "0x0", "latest"]}"#;
    let req = decode_text(s).unwrap();
    assert_eq!(
        req,
        EthRequest::EthGetStorageAt(
            Address { high: 0x295a70b2, low: 0xde5e3953354a6a8344e616ed314d7251 },
            U256::zero(),
            Some(BlockNumber::Latest),
        )
    );
}

#[test]
fn test_eth_call() {
    let s = r#"{"method": "eth_call", "params":  [{"data":"0xcfae3217","from":"0xd84de507f3fada7df80908082d3239466db55a71","to":"0xcbe828fdc46e3b1c351ec90b1a5e7d9742c0398d"},"latest"]}"#;
    let req = decode_text(s).unwrap();
    assert!(matches!(req, EthRequest::EthCall(JsonValue::Object(_), Some(BlockNumber::Latest))));

    let s = r#"{"method": "eth_call", "params":  [{"data":"0xcfae3217","from":"0xd84de507f3fada7df80908082d3239466db55a71","to":"0xcbe828fdc46e3b1c351ec90b1a5e7d9742c0398d"}]}"#;
    let req = decode_text(s).unwrap();
    assert!(matches!(req, EthRequest::EthCall(JsonValue::Object(_), None)));
}

#[test]
fn test_serde_eth_balance() {
    let s = r#"{"method": "eth_getBalance", "params": ["0x295a70b2de5e3953354a6a8344e616ed314d7251", "latest"]}"#;
    let req = decode_text(s).unwrap();
    assert!(matches!(req, EthRequest::EthGetBalance(_, Some(BlockNumber::Latest))));
}

#[test]
fn storage_at_on_fresh_state_is_zero_word() {
    let s = r#"{"method": "eth_getStorageAt", "params": ["0x295a70b2de5e3953354a6a8344e616ed314d7251", "0x0", "latest"]}"#;
    let db = StateDb::new();
    let req = decode_text(s).unwrap();
    let reply = handle_read(&req, &db).unwrap().to_json();
    assert_eq!(reply, format!("\"0x{}\"", "0".repeat(64)));
}

#[test]
fn snapshot_set_balance_revert_through_requests() {
    let mut db = StateDb::new();
    let snap = match handle_write(&decode_text(r#"{"method":"evm_snapshot","params":[]}"#).unwrap(), &mut db) {
        Some(Ok(Response::Quantity(id))) => id,
        other => panic!("unexpected {:?}", other),
    };
    let set = r#"{"method":"anvil_setBalance","params":["0xaaaaaaaaaaaaaaaaaaaaaaaaaaaaaaaaaaaaaaaa","0x3e8"]}"#;
    assert_eq!(handle_write(&decode_text(set).unwrap(), &mut db), Some(Ok(Response::Bool(true))));
    let get = decode_text(r#"{"method":"eth_getBalance","params":["0xaaaaaaaaaaaaaaaaaaaaaaaaaaaaaaaaaaaaaaaa","latest"]}"#).unwrap();
    assert_eq!(handle_read(&get, &db).unwrap().to_json(), "\"0x3e8\"");
    let revert = EthRequest::decode("evm_revert", JsonValue::String(Response::Quantity(snap).to_json().trim_matches('"').to_string())).unwrap();
    assert_eq!(handle_write(&revert, &mut db), Some(Ok(Response::Bool(true))));
    assert_eq!(handle_read(&get, &db).unwrap().to_json(), "\"0x0\"");
}

#[test]
fn quantities_are_minimal_and_words_full_width() {
    assert_eq!(encode_quantity(U256::zero()), "0x0");
    assert_eq!(encode_quantity(U256::from_u64(0x1b4)), "0x1b4");
    assert_eq!(encode_quantity(U256 { high: 1, low: 0 }), format!("0x1{}", "0".repeat(32)));
    assert_eq!(encode_word(U256::from_u64(255)), format!("0x{}ff", "0".repeat(62)));
    assert_eq!(encode_bytes(&[0x00, 0xab, 0x10]), "0x00ab10");
    assert_eq!(encode_bytes(&[]), "0x");
    assert_eq!(Response::Bool(false).to_json(), "false");
}

#[test]
fn set_nonce_must_fit_64_bits() {
    let mut db = StateDb::new();
    let a = Address { high: 0, low: 1 };
    let too_big = EthRequest::SetNonce(a, U256 { high: 0, low: u64::MAX as u128 + 1 });
    assert_eq!(handle_write(&too_big, &mut db), Some(Err(RequestError::InvalidParams)));
    let ok = EthRequest::SetNonce(a, U256::from_u64(9));
    assert_eq!(handle_write(&ok, &mut db), Some(Ok(Response::Bool(true))));
    assert_eq!(db.basic(a).nonce, 9);
}

#[test]
fn empty_batch_is_invalid() {
    assert_eq!(decode_batch(Vec::new()), Err(RequestError::InvalidRequest));
    let out = decode_batch(vec![
        ("eth_chainId".to_string(), JsonValue::Null),
        ("eth_nope".to_string(), JsonValue::Null),
    ])
    .unwrap();
    assert_eq!(out, vec![Ok(EthRequest::EthChainId), Err(RequestError::MethodNotFound)]);
}

#[test]
fn fee_history_takes_integer_or_quantity() {
    let req = decode_text(r#"{"method":"eth_feeHistory","params":[4,"latest",[25,75]]}"#).unwrap();
    match req {
        EthRequest::EthFeeHistory(count, newest, percentiles) => {
            assert_eq!(count, U256::from_u64(4));
            assert_eq!(newest, BlockNumber::Latest);
            let values: Vec<f64> = percentiles
                .iter()
                .map(|p| match p {
                    JsonValue::Number(JsonNumber::Unsigned(n)) => *n as f64,
                    JsonValue::Number(JsonNumber::Other(t)) => t.parse().unwrap(),
                    _ => panic!("not a number"),
                })
                .collect();
            assert_eq!(values, vec![25.0, 75.0]);
        }
        other => panic!("unexpected {:?}", other),
    }
    let req = decode_text(r#"{"method":"eth_feeHistory","params":["0x4","latest",[]]}"#).unwrap();
    assert_eq!(req, EthRequest::EthFeeHistory(U256::from_u64(4), BlockNumber::Latest, Vec::new()));
}

#[test]
fn single_parameter_may_come_bare() {
    let h = "0x00000000000000000000000000000000000000000000000000000000000000ff";
    let wrapped = EthRequest::decode("eth_getTransactionByHash", json(serde_json::Value::Array(vec![serde_json::Value::String(h.to_string())])));
    let bare = EthRequest::decode("eth_getTransactionByHash", JsonValue::String(h.to_string()));
    assert_eq!(wrapped, bare);
    assert_eq!(bare, Ok(EthRequest::EthGetTransactionByHash(H256 { high: 0, low: 0xff })));
    let wrapped_null = EthRequest::decode("evm_mine", JsonValue::Array(vec![JsonValue::Null]));
    let bare_null = EthRequest::decode("evm_mine", JsonValue::Null);
    assert_eq!(wrapped_null, bare_null);
    assert_eq!(bare_null, Ok(EthRequest::EvmMine(None)));
}

#[test]
fn unknown_method_and_bad_params() {
    assert_eq!(decode_text(r#"{"method":"eth_nothing","params":[]}"#), Err(RequestError::MethodNotFound));
    assert_eq!(decode_text(r#"{"method":"eth_getBalance","params":["0x12"]}"#), Err(RequestError::InvalidParams));
    assert_eq!(decode_text(r#"{"method":"eth_chainId","params":[1]}"#), Err(RequestError::InvalidParams));
    assert_eq!(decode_text(r#"{"method":"eth_chainId"}"#), Ok(EthRequest::EthChainId));
    assert_eq!(RequestError::MethodNotFound.code(), -32601);
    assert_eq!(RequestError::InvalidParams.code(), -32602);
}

#[test]
fn index_accepts_hex_and_decimal() {
    let h = "0x00000000000000000000000000000000000000000000000000000000000000ff";
    for (param, expected) in [
        (serde_json::Value::String("0x1f".into()), 31usize),
        (serde_json::Value::String("42".into()), 42),
        (serde_json::Value::from(7u64), 7),
    ] {
        let params = serde_json::Value::Array(vec![serde_json::Value::String(h.into()), param]);
        let req = EthRequest::decode("eth_getTransactionByBlockHashAndIndex", json(params)).unwrap();
        assert_eq!(
            req,
            EthRequest::EthGetTransactionByBlockHashAndIndex(H256 { high: 0, low: 0xff }, Index(expected))
        );
        assert_eq!(usize::from(Index(expected)), expected);
    }
}

#[test]
fn mine_options_and_block_numbers() {
    let req = decode_text(r#"{"method":"evm_mine","params":[{"timestamp":100,"blocks":2}]}"#).unwrap();
    assert_eq!(
        req,
        EthRequest::EvmMine(Some(EvmMineOptions::Options { timestamp: Some(100), blocks: Some(2) }))
    );
    let req = decode_text(r#"{"method":"evm_mine","params":[5]}"#).unwrap();
    assert_eq!(req, EthRequest::EvmMine(Some(EvmMineOptions::Timestamp(Some(5)))));
    let req = decode_text(r#"{"method":"eth_getBlockByNumber","params":["0x1b4",true]}"#).unwrap();
    assert_eq!(req, EthRequest::EthGetBlockByNumber(BlockNumber::Number(0x1b4), true));
    let req = decode_text(r#"{"method":"eth_sendRawTransaction","params":["0x01ff"]}"#).unwrap();
    assert_eq!(req, EthRequest::EthSendRawTransaction(vec![0x01, 0xff]));
    let req = decode_text(r#"{"method":"evm_revert","params":["0x1"]}"#).unwrap();
    assert_eq!(req, EthRequest::EvmRevert(U256::from_u64(1)));
}
