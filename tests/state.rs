use anvil::state::{hash_code, AccountInfo, StateDb};
use anvil::types::{keccak_empty, Address, H256, U256};

fn addr(x: u128) -> Address {
    Address { high: 0, low: x }
}

fn h256_of(bytes: [u8; 32]) -> H256 {
    H256 {
        high: u128::from_be_bytes(bytes[..16].try_into().unwrap()),
        low: u128::from_be_bytes(bytes[16..].try_into().unwrap()),
    }
}

#[test]
fn fresh_state_reads_empty() {
    let db = StateDb::new();
    let a = db.basic(addr(7));
    assert_eq!(a.nonce, 0);
    assert_eq!(a.balance, U256::zero());
    assert_eq!(a.code_hash, keccak_empty());
    assert_eq!(db.storage(addr(7), U256::from_u64(0)), U256::zero());
}

#[test]
fn snapshot_then_revert_restores_balance() {
    let mut db = StateDb::new();
    let a = Address { high: 0xaaaa_aaaa, low: u128::MAX / 3 * 2 };
    let snap = db.snapshot();
    db.set_balance(a, U256::from_u64(1000));
    assert_eq!(db.basic(a).balance, U256::from_u64(1000));
    assert!(db.revert(snap));
    assert_eq!(db.basic(a).balance, U256::zero());
}

#[test]
fn revert_to_gone_snapshot_fails() {
    let mut db = StateDb::new();
    let first = db.snapshot();
    let second = db.snapshot();
    db.set_nonce(addr(1), 5);
    assert!(db.revert(first));
    assert!(!db.revert(second));
    assert!(!db.revert(U256::from_u64(0)));
    assert_eq!(db.basic(addr(1)).nonce, 0);
}

#[test]
fn lower_snapshots_stay_valid() {
    let mut db = StateDb::new();
    db.set_storage_at(addr(2), U256::from_u64(1), U256::from_u64(10));
    let first = db.snapshot();
    db.set_storage_at(addr(2), U256::from_u64(1), U256::from_u64(20));
    let second = db.snapshot();
    db.set_storage_at(addr(2), U256::from_u64(1), U256::from_u64(30));
    assert!(db.revert(second));
    assert_eq!(db.storage(addr(2), U256::from_u64(1)), U256::from_u64(20));
    assert!(db.revert(first));
    assert_eq!(db.storage(addr(2), U256::from_u64(1)), U256::from_u64(10));
}

#[test]
fn set_code_sets_its_hash() {
    let mut db = StateDb::new();
    let code = vec![0x60u8, 0x00, 0x60, 0x00];
    db.set_code(addr(3), code.clone());
    let info = db.basic(addr(3));
    assert_eq!(info.code, Some(code.clone()));
    assert_eq!(info.code_hash, h256_of(ethers_core::utils::keccak256(&code)));
    assert_ne!(info.code_hash, keccak_empty());
    db.set_code(addr(3), Vec::new());
    assert_eq!(db.basic(addr(3)).code_hash, keccak_empty());
}

#[test]
fn empty_code_hash_is_keccak_of_nothing() {
    assert_eq!(keccak_empty(), h256_of(ethers_core::utils::keccak256([])));
    assert_eq!(hash_code(&[]), keccak_empty());
}

#[test]
fn dump_and_load_round_trip() {
    let mut db = StateDb::new();
    db.insert_account(addr(4), AccountInfo::new(3, U256::from_u64(99), vec![1, 2, 3]));
    db.set_storage_at(addr(4), U256::from_u64(5), U256::from_u64(6));
    db.set_balance(addr(8), U256 { high: 1, low: 2 });
    let dump = db.dump_state();
    assert_eq!(dump.accounts.len(), 2);
    assert_eq!(dump.accounts[0].1.storage, vec![(U256::from_u64(5), U256::from_u64(6))]);
    let mut other = StateDb::new();
    assert!(other.load_state(&dump));
    for a in [addr(4), addr(8), addr(9)] {
        let x = db.basic(a);
        let y = other.basic(a);
        assert_eq!(x.nonce, y.nonce);
        assert_eq!(x.balance, y.balance);
        assert_eq!(x.code_hash, y.code_hash);
    }
    assert_eq!(other.storage(addr(4), U256::from_u64(5)), U256::from_u64(6));
    assert!(db.load_state(&dump));
    assert_eq!(db.basic(addr(4)).nonce, 3);
}

#[test]
fn block_hash_covers_the_last_256_blocks() {
    let mut db = StateDb::new();
    for i in 0..300u128 {
        db.push_block_hash(H256 { high: 0, low: i + 1 });
    }
    assert_eq!(db.block_hash(U256::from_u64(299)), H256 { high: 0, low: 300 });
    assert_eq!(db.block_hash(U256::from_u64(44)), H256 { high: 0, low: 45 });
    assert_eq!(db.block_hash(U256::from_u64(43)), H256::zero());
    assert_eq!(db.block_hash(U256::from_u64(300)), H256::zero());
}

#[test]
fn dump_keeps_slots_of_accounts_never_written() {
    let mut db = StateDb::new();
    db.set_storage_at(addr(11), U256::from_u64(1), U256::from_u64(7));
    assert_eq!(db.basic(addr(11)).nonce, 0);
    let dump = db.dump_state();
    assert_eq!(dump.accounts.len(), 1);
    let mut fresh = StateDb::new();
    assert!(fresh.load_state(&dump));
    assert_eq!(fresh.storage(addr(11), U256::from_u64(1)), U256::from_u64(7));
}

#[test]
fn insert_account_sets_the_code_hash() {
    let mut db = StateDb::new();
    let mut info = AccountInfo::new(1, U256::zero(), vec![0xfe]);
    info.code_hash = H256::zero();
    db.insert_account(addr(12), info);
    assert_eq!(db.basic(addr(12)).code_hash, h256_of(ethers_core::utils::keccak256([0xfeu8])));
}
