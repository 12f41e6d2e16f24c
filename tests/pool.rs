use anvil::miner::{FixedBlockTimeMiner, Miner, MiningMode};
use anvil::pool::{AddedTransaction, Pool, PoolError, PoolTransaction};
use anvil::types::{Address, H256};

fn tx(sender: u128, nonce: u64, gas_price: u128, id: u128) -> PoolTransaction {
    PoolTransaction {
        hash: H256 { high: sender, low: id },
        sender: Address { high: 0, low: sender },
        nonce,
        gas_price,
    }
}

#[test]
fn nonces_out_of_order_become_ready_in_order() {
    let mut pool = Pool::new();
    assert_eq!(pool.add_transaction(tx(1, 2, 10, 2), 0), Ok(AddedTransaction::Pending));
    let t0 = tx(1, 0, 10, 0);
    assert_eq!(pool.add_transaction(t0, 0), Ok(AddedTransaction::Ready(vec![t0.hash])));
    let t1 = tx(1, 1, 10, 1);
    let added = pool.add_transaction(t1, 0).unwrap();
    assert_eq!(added, AddedTransaction::Ready(vec![t1.hash, tx(1, 2, 10, 2).hash]));
    let nonces: Vec<u64> = pool.ready_transactions().iter().map(|t| t.nonce).collect();
    assert_eq!(nonces, vec![0, 1, 2]);
    assert!(pool.pending.is_empty());
}

#[test]
fn same_hash_twice_is_already_known() {
    let mut pool = Pool::new();
    let t = tx(5, 0, 1, 0);
    assert!(pool.add_transaction(t, 0).is_ok());
    assert_eq!(pool.add_transaction(t, 0), Err(PoolError::AlreadyKnown));
    assert_eq!(pool.ready_transactions(), vec![t]);
}

#[test]
fn low_nonce_is_refused() {
    let mut pool = Pool::new();
    assert_eq!(pool.add_transaction(tx(1, 3, 1, 0), 4), Err(PoolError::NonceTooLow));
    assert!(pool.add_transaction(tx(1, 4, 1, 1), 4).is_ok());
    assert_eq!(pool.add_transaction(tx(1, 4, 1, 2), 4), Err(PoolError::NonceTooLow));
}

#[test]
fn best_gas_price_first_but_nonce_order_per_sender() {
    let mut pool = Pool::new();
    pool.add_transaction(tx(1, 0, 5, 0), 0).unwrap();
    pool.add_transaction(tx(1, 1, 50, 1), 0).unwrap();
    pool.add_transaction(tx(2, 0, 20, 2), 0).unwrap();
    pool.add_transaction(tx(3, 0, 20, 3), 0).unwrap();
    let order: Vec<(u128, u64)> =
        pool.ready_transactions().iter().map(|t| (t.sender.low, t.nonce)).collect();
    assert_eq!(order, vec![(2, 0), (3, 0), (1, 0), (1, 1)]);
}

#[test]
fn mined_transactions_leave_the_pool() {
    let mut pool = Pool::new();
    let a = tx(1, 0, 1, 0);
    let b = tx(1, 1, 1, 1);
    pool.add_transaction(a, 0).unwrap();
    pool.add_transaction(b, 0).unwrap();
    pool.remove_transactions(&vec![a.hash]);
    assert_eq!(pool.ready_transactions(), vec![b]);
}

#[test]
fn instant_mode_batches_two_two_one() {
    let mut pool = Pool::new();
    let mut announced = Vec::new();
    for n in 0..5u64 {
        let t = tx(9, n, 1, n as u128);
        if let Ok(AddedTransaction::Ready(h)) = pool.add_transaction(t, 0) {
            announced.extend(h);
        }
    }
    assert_eq!(announced.len(), 5);
    let mut miner = Miner::new(MiningMode::instant(2));
    let mut sizes = Vec::new();
    let mut received = announced;
    while let Some(batch) = miner.poll(&received, false, &pool.ready_transactions()) {
        received = Vec::new();
        sizes.push(batch.len());
        let hashes: Vec<H256> = batch.iter().map(|t| t.hash).collect();
        pool.remove_transactions(&hashes);
    }
    assert_eq!(sizes, vec![2, 2, 1]);
}

#[test]
fn interval_mode_mines_on_tick_only() {
    let mut pool = Pool::new();
    pool.add_transaction(tx(1, 0, 1, 0), 0).unwrap();
    let mut miner = Miner::new(MiningMode::interval(1000));
    assert_eq!(miner.poll(&Vec::new(), false, &pool.ready_transactions()), None);
    assert_eq!(miner.poll(&Vec::new(), true, &pool.ready_transactions()).unwrap().len(), 1);
    assert_eq!(miner.poll(&Vec::new(), true, &Vec::new()), Some(Vec::new()));
    assert_eq!(FixedBlockTimeMiner::default().interval_ms, 6000);
}

#[test]
fn resubmission_is_known_and_mined_once() {
    let mut pool = Pool::new();
    let t = tx(4, 0, 3, 0);
    let announced = match pool.add_transaction(t, 0) {
        Ok(AddedTransaction::Ready(h)) => h,
        other => panic!("unexpected {:?}", other),
    };
    assert_eq!(pool.add_transaction(t, 0), Err(PoolError::AlreadyKnown));
    let mut miner = Miner::new(MiningMode::instant(10));
    let block = miner.poll(&announced, false, &pool.ready_transactions()).unwrap();
    assert_eq!(block, vec![t]);
    pool.remove_transactions(&block.iter().map(|t| t.hash).collect());
    assert_eq!(miner.poll(&Vec::new(), false, &pool.ready_transactions()), None);
    assert!(pool.ready_transactions().is_empty());
}
