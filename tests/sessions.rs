use anvil::pubsub::{BlockHead, Connection, Event, Log, LogFilter, PubSub, SubscriptionKind};
use anvil::signer::{
    assemble, DevKey, DevSigner, EIP1559TransactionRequest, LegacyTransactionRequest, RawSignature,
    SignError, TransactionFields, TransactionKind, TypedTransaction, TypedTransactionRequest,
};
use anvil::types::{Address, H256, U256};

fn head(n: u64) -> Event {
    Event::Head(BlockHead { number: n, hash: H256 { high: 0, low: n as u128 } })
}

#[test]
fn slow_consumer_is_dropped_without_delaying_others() {
    let mut ps = PubSub::new();
    let mut slow = Connection::new(1);
    let slow_id = slow.subscribe(SubscriptionKind::NewHeads).unwrap();
    let mut fast = Connection::new(8);
    fast.subscribe(SubscriptionKind::NewHeads).unwrap();
    ps.connections.push(slow);
    ps.connections.push(fast);
    ps.publish(head(1));
    ps.publish(head(2));
    let (q_slow, dropped) = ps.connections[0].take_notifications();
    assert_eq!(q_slow.len(), 1);
    assert_eq!(dropped, vec![slow_id]);
    assert!(ps.connections[0].subscriptions.is_empty());
    let (q_fast, none) = ps.connections[1].take_notifications();
    assert_eq!(q_fast.iter().map(|n| n.event).collect::<Vec<_>>(), vec![0, 1]);
    assert!(none.is_empty());
    assert_eq!(ps.events.len(), 2);
}

#[test]
fn log_filters_match_addresses_and_topics() {
    let a = Address { high: 0, low: 1 };
    let t0 = H256 { high: 0, low: 10 };
    let t1 = H256 { high: 0, low: 11 };
    let log = Log { address: a, topics: vec![t0, t1], block_number: 5 };
    let any = LogFilter { from_block: None, to_block: None, addresses: vec![], topics: vec![] };
    assert!(any.matches(&log));
    let by_topic = LogFilter {
        from_block: Some(5),
        to_block: Some(5),
        addresses: vec![a],
        topics: vec![None, Some(vec![H256 { high: 0, low: 99 }, t1])],
    };
    assert!(by_topic.matches(&log));
    let wrong_topic = LogFilter {
        from_block: None,
        to_block: None,
        addresses: vec![],
        topics: vec![Some(vec![t1])],
    };
    assert!(!wrong_topic.matches(&log));
    let late = LogFilter { from_block: Some(6), to_block: None, addresses: vec![], topics: vec![] };
    assert!(!late.matches(&log));
    let other = LogFilter {
        from_block: None,
        to_block: None,
        addresses: vec![Address { high: 0, low: 2 }],
        topics: vec![],
    };
    assert!(!other.matches(&log));
}

#[test]
fn pending_transactions_reach_their_subscribers_only() {
    let mut ps = PubSub::new();
    let mut c = Connection::new(4);
    let heads = c.subscribe(SubscriptionKind::NewHeads).unwrap();
    let pending = c.subscribe(SubscriptionKind::NewPendingTransactions).unwrap();
    assert_ne!(heads, pending);
    ps.connections.push(c);
    ps.publish(Event::PendingTransaction(H256 { high: 1, low: 2 }));
    let (q, _) = ps.connections[0].take_notifications();
    assert_eq!(q.len(), 1);
    assert_eq!(q[0].subscription, pending);
    assert!(ps.connections[0].unsubscribe(pending));
    assert!(!ps.connections[0].unsubscribe(pending));
}

fn fields() -> TransactionFields {
    TransactionFields {
        nonce: U256::from_u64(0),
        gas_limit: U256::from_u64(21000),
        kind: TransactionKind::Call(Address { high: 0, low: 3 }),
        value: U256::from_u64(1),
        input: vec![],
    }
}

#[test]
fn legacy_v_follows_chain_id() {
    let sig = RawSignature { r: U256 { high: 1, low: 2 }, s: U256 { high: 3, low: 4 }, recovery_id: 1 };
    let req = TypedTransactionRequest::Legacy(LegacyTransactionRequest {
        fields: fields(),
        gas_price: U256::from_u64(1),
        chain_id: Some(1),
    });
    match assemble(req, sig).unwrap() {
        TypedTransaction::Legacy(t) => assert_eq!(t.signature.v, 38),
        _ => panic!("wrong type"),
    }
    let req = TypedTransactionRequest::Legacy(LegacyTransactionRequest {
        fields: fields(),
        gas_price: U256::from_u64(1),
        chain_id: None,
    });
    match assemble(req, RawSignature { recovery_id: 0, ..sig }).unwrap() {
        TypedTransaction::Legacy(t) => assert_eq!(t.signature.v, 27),
        _ => panic!("wrong type"),
    }
}

#[test]
fn typed_transactions_split_parity_r_s() {
    let sig = RawSignature { r: U256 { high: 5, low: 6 }, s: U256 { high: 7, low: 8 }, recovery_id: 1 };
    let req = TypedTransactionRequest::EIP1559(EIP1559TransactionRequest {
        fields: fields(),
        chain_id: 1,
        max_priority_fee_per_gas: U256::from_u64(1),
        max_fee_per_gas: U256::from_u64(2),
        access_list: vec![],
    });
    match assemble(req.clone(), sig).unwrap() {
        TypedTransaction::EIP1559(t) => {
            assert!(t.odd_y_parity);
            assert_eq!(t.r, H256 { high: 5, low: 6 });
            assert_eq!(t.s, H256 { high: 7, low: 8 });
        }
        _ => panic!("wrong type"),
    }
    assert!(matches!(
        assemble(req, RawSignature { recovery_id: 2, ..sig }),
        Err(SignError::InvalidRecoveryId)
    ));
}

#[test]
fn dev_signer_lookup() {
    let a = Address { high: 1, low: 1 };
    let b = Address { high: 2, low: 2 };
    let signer = DevSigner::new(vec![(a, DevKey { secret: H256 { high: 0, low: 7 } })]);
    assert_eq!(signer.accounts(), vec![a]);
    assert_eq!(signer.key_for(&a), Ok(DevKey { secret: H256 { high: 0, low: 7 } }));
    assert_eq!(signer.key_for(&b), Err(SignError::NoSignerAvailable));
}

#[test]
fn dev_signer_signs_with_its_key() {
    let a = Address { high: 1, low: 1 };
    let secret = H256 { high: 0x4c0883a69102937d6231471b5dbb6204, low: 0xfe5129617082792ae468d01a3f362318 };
    let signer = DevSigner::new(vec![
        (a, DevKey { secret }),
        (Address { high: 3, low: 3 }, DevKey { secret: H256::zero() }),
    ]);
    let hash = H256 { high: 0x1234, low: 0x5678 };
    let req = TypedTransactionRequest::EIP1559(EIP1559TransactionRequest {
        fields: fields(),
        chain_id: 1,
        max_priority_fee_per_gas: U256::from_u64(1),
        max_fee_per_gas: U256::from_u64(2),
        access_list: vec![],
    });
    let mut hash_bytes = [0u8; 32];
    hash_bytes[..16].copy_from_slice(&hash.high.to_be_bytes());
    hash_bytes[16..].copy_from_slice(&hash.low.to_be_bytes());
    let mut key_bytes = [0u8; 32];
    key_bytes[..16].copy_from_slice(&secret.high.to_be_bytes());
    key_bytes[16..].copy_from_slice(&secret.low.to_be_bytes());
    let key = ethers_core::k256::ecdsa::SigningKey::from_slice(&key_bytes).unwrap();
    let (sig, recid) = key.sign_prehash_recoverable(&hash_bytes).unwrap();
    let b = sig.to_bytes();
    match signer.sign(req.clone(), &a, hash).unwrap() {
        TypedTransaction::EIP1559(t) => {
            assert_eq!(t.odd_y_parity, recid.to_byte() == 1);
            assert_eq!(t.r.high.to_be_bytes(), b[..16]);
            assert_eq!(t.s.low.to_be_bytes(), b[48..64]);
        }
        _ => panic!("wrong type"),
    }
    assert!(matches!(signer.sign(req.clone(), &Address { high: 9, low: 9 }, hash), Err(SignError::NoSignerAvailable)));
    assert!(matches!(signer.sign(req, &Address { high: 3, low: 3 }, hash), Err(SignError::SigningFailed)));
}

#[test]
fn legacy_chain_id_too_large_is_refused() {
    let sig = RawSignature { r: U256::zero(), s: U256::zero(), recovery_id: 1 };
    let req = TypedTransactionRequest::Legacy(LegacyTransactionRequest {
        fields: fields(),
        gas_price: U256::from_u64(1),
        chain_id: Some(u64::MAX / 2),
    });
    assert!(matches!(assemble(req, sig), Err(SignError::ChainIdTooLarge)));
}
