//! The miner's decisions: which ready transactions go into the next block.
//!
//! The miner is polled by an outer scheduler. It is handed what happened
//! since the last poll (the hashes announced as ready, whether the block
//! timer ticked) and the pool's ready transactions, best first, and answers
//! with a batch for the block builder or with nothing. No transaction leaves
//! the pool here: that happens when the block that holds it is committed.

use crate::pool::PoolTransaction;
use crate::types::H256;
use vstd::prelude::*;

verus! {

/// How many transactions a batch takes: all that are available, up to `max`.
pub open spec fn batch_len(available: nat, max: usize) -> int {
    if available < max {
        available as int
    } else {
        max as int
    }
}

/// The hashes of the transactions.
pub open spec fn hashes_of(txs: Seq<PoolTransaction>) -> Set<H256> {
    txs.map_values(|t: PoolTransaction| t.hash).to_set()
}

/// A miner that mines whenever transactions were announced as ready, at most
/// `max_transactions` per block.
#[derive(Debug, Clone)]
pub struct ReadyTransactionMiner {
    /// How many transactions to mine per block.
    pub max_transactions: usize,
    /// Announced hashes not yet taken into a block.
    pub ready: Vec<H256>,
}

impl ReadyTransactionMiner {
    pub fn new(max_transactions: usize) -> (r: ReadyTransactionMiner)
        ensures
            r.max_transactions == max_transactions,
            r.ready@.len() == 0,
    {
        ReadyTransactionMiner { max_transactions, ready: Vec::new() }
    }

    /// Records the hashes `received` since the last poll. While any announced
    /// hash is outstanding it returns the first `max_transactions` of `ready`
    /// and forgets their hashes; otherwise it returns nothing.
    pub fn poll(&mut self, received: &Vec<H256>, ready: &Vec<PoolTransaction>) -> (r: Option<
        Vec<PoolTransaction>,
    >)
        ensures
            final(self).max_transactions == old(self).max_transactions,
            ({
                let notified = old(self).ready@.to_set() + received@.to_set();
                let n = batch_len(ready@.len(), old(self).max_transactions);
                &&& notified.is_empty() ==> r is None && final(self).ready@.to_set() == notified
                &&& !notified.is_empty() ==> (r matches Some(batch) && batch@ == ready@.take(n)
                    && final(self).ready@.to_set() == notified.difference(
                    hashes_of(ready@.take(n)),
                ))
            }),
    {
        let ghost notified = old(self).ready@.to_set() + received@.to_set();
        let mut k: usize = 0;
        while k < received.len()
            invariant
                k <= received@.len(),
                self.max_transactions == old(self).max_transactions,
                self.ready@.to_set() == old(self).ready@.to_set() + received@.take(k as int).to_set(),
            decreases received@.len() - k,
        {
            let ghost before = self.ready@;
            self.ready.push(received[k]);
            proof {
                let t = received@.take(k + 1);
                assert(t =~= received@.take(k as int).push(received@[k as int]));
                before.lemma_push_to_set_commute(received@[k as int]);
                received@.take(k as int).lemma_push_to_set_commute(received@[k as int]);
                assert(self.ready@.to_set() =~= old(self).ready@.to_set() + t.to_set());
            }
            k = k + 1;
        }
        assert(received@.take(k as int) =~= received@);
        if self.ready.len() == 0 {
            assert(notified =~= self.ready@.to_set());
            return None;
        }
        assert(notified.contains(self.ready@[0]));
        let n = if ready.len() < self.max_transactions {
            ready.len()
        } else {
            self.max_transactions
        };
        let mut batch: Vec<PoolTransaction> = Vec::new();
        let mut i: usize = 0;
        while i < n
            invariant
                i <= n <= ready@.len(),
                batch@ == ready@.take(i as int),
            decreases n - i,
        {
            batch.push(ready[i]);
            assert(ready@.take(i + 1) =~= ready@.take(i as int).push(ready@[i as int]));
            i = i + 1;
        }
        let ghost taken = hashes_of(batch@);
        let kept = keep_untaken(&self.ready, &batch);
        self.ready = kept;
        assert(self.ready@.to_set() =~= notified.difference(taken));
        Some(batch)
    }
}

/// The hashes of `hashes` that no transaction of `batch` has.
fn keep_untaken(hashes: &Vec<H256>, batch: &Vec<PoolTransaction>) -> (r: Vec<H256>)
    ensures
        r@.to_set() == hashes@.to_set().difference(hashes_of(batch@)),
{
    let mut r: Vec<H256> = Vec::new();
    let mut k: usize = 0;
    while k < hashes.len()
        invariant
            k <= hashes@.len(),
            r@.to_set() == hashes@.take(k as int).to_set().difference(hashes_of(batch@)),
        decreases hashes@.len() - k,
    {
        let h = hashes[k];
        let mut taken = false;
        let mut m: usize = 0;
        while m < batch.len()
            invariant
                m <= batch@.len(),
                taken == exists|q: int| 0 <= q < m && (#[trigger] batch@[q]).hash == h,
            decreases batch@.len() - m,
        {
            if batch[m].hash == h {
                taken = true;
            }
            m = m + 1;
        }
        proof {
            let hs = batch@.map_values(|t: PoolTransaction| t.hash);
            if taken {
                let q = choose|q: int| 0 <= q < m && (#[trigger] batch@[q]).hash == h;
                assert(hs[q] == h);
                assert(hashes_of(batch@).contains(h));
            } else {
                assert forall|q: int| 0 <= q < hs.len() implies hs[q] != h by {
                    assert(batch@[q].hash != h);
                }
                assert(!hashes_of(batch@).contains(h));
            }
        }
        let ghost before = r@;
        if !taken {
            r.push(h);
        }
        proof {
            let t = hashes@.take(k + 1);
            assert(t =~= hashes@.take(k as int).push(h));
            hashes@.take(k as int).lemma_push_to_set_commute(h);
            if !taken {
                before.lemma_push_to_set_commute(h);
            }
            assert(r@.to_set() =~= t.to_set().difference(hashes_of(batch@)));
        }
        k = k + 1;
    }
    assert(hashes@.take(k as int) =~= hashes@);
    r
}

/// A miner that makes a block on every tick of its timer, with every ready
/// transaction.
#[derive(Debug, Clone, Copy)]
pub struct FixedBlockTimeMiner {
    /// The block time in milliseconds.
    pub interval_ms: u64,
}

/// The default block time: six seconds.
pub const DEFAULT_BLOCK_TIME_MS: u64 = 6000;

impl FixedBlockTimeMiner {
    pub fn new(interval_ms: u64) -> (r: FixedBlockTimeMiner)
        ensures
            r.interval_ms == interval_ms,
    {
        FixedBlockTimeMiner { interval_ms }
    }

    /// On a tick, all of `ready`; otherwise nothing.
    pub fn poll(&self, tick: bool, ready: &Vec<PoolTransaction>) -> (r: Option<Vec<PoolTransaction>>)
        ensures
            tick ==> (r matches Some(batch) && batch@ == ready@),
            !tick ==> r is None,
    {
        if tick {
            Some(ready.clone())
        } else {
            None
        }
    }
}

impl Default for FixedBlockTimeMiner {
    fn default() -> (r: FixedBlockTimeMiner)
        ensures
            r.interval_ms == DEFAULT_BLOCK_TIME_MS,
    {
        FixedBlockTimeMiner::new(DEFAULT_BLOCK_TIME_MS)
    }
}

/// How the miner decides when to make a block.
#[derive(Debug, Clone)]
pub enum MiningMode {
    /// Mine as soon as transactions are announced as ready.
    Instant(ReadyTransactionMiner),
    /// Mine on every tick of a timer.
    FixedBlockTime(FixedBlockTimeMiner),
}

impl MiningMode {
    pub fn instant(max_transactions: usize) -> (r: MiningMode)
        ensures
            r matches MiningMode::Instant(m) && m.max_transactions == max_transactions
                && m.ready@.len() == 0,
    {
        MiningMode::Instant(ReadyTransactionMiner::new(max_transactions))
    }

    pub fn interval(interval_ms: u64) -> (r: MiningMode)
        ensures
            r == MiningMode::FixedBlockTime(FixedBlockTimeMiner { interval_ms }),
    {
        MiningMode::FixedBlockTime(FixedBlockTimeMiner::new(interval_ms))
    }

    /// The batch for the next block, if this mode makes one now.
    pub fn poll(&mut self, received: &Vec<H256>, tick: bool, ready: &Vec<PoolTransaction>) -> (r:
        Option<Vec<PoolTransaction>>)
        ensures
            match (*old(self), *final(self)) {
                (MiningMode::FixedBlockTime(m), MiningMode::FixedBlockTime(m2)) => m2 == m && (tick
                    ==> (r matches Some(batch) && batch@ == ready@)) && (!tick ==> r is None),
                (MiningMode::Instant(m), MiningMode::Instant(m2)) => {
                    let notified = m.ready@.to_set() + received@.to_set();
                    let n = batch_len(ready@.len(), m.max_transactions);
                    &&& m2.max_transactions == m.max_transactions
                    &&& notified.is_empty() ==> r is None && m2.ready@.to_set() == notified
                    &&& !notified.is_empty() ==> (r matches Some(batch) && batch@ == ready@.take(n)
                        && m2.ready@.to_set() == notified.difference(hashes_of(ready@.take(n))))
                },
                _ => false,
            },
    {
        match self {
            MiningMode::Instant(m) => m.poll(received, ready),
            MiningMode::FixedBlockTime(m) => m.poll(tick, ready),
        }
    }
}

/// The miner: its current mode, which can be swapped between polls.
#[derive(Debug, Clone)]
pub struct Miner {
    pub mode: MiningMode,
}

impl Miner {
    pub fn new(mode: MiningMode) -> (r: Miner)
        ensures
            r.mode == mode,
    {
        Miner { mode }
    }

    /// Installs `mode`; the next poll uses it.
    pub fn set_mode(&mut self, mode: MiningMode)
        ensures
            final(self).mode == mode,
    {
        self.mode = mode;
    }

    /// The batch for the next block under the current mode, if any.
    pub fn poll(&mut self, received: &Vec<H256>, tick: bool, ready: &Vec<PoolTransaction>) -> (r:
        Option<Vec<PoolTransaction>>)
        ensures
            match (old(self).mode, final(self).mode) {
                (MiningMode::FixedBlockTime(m), MiningMode::FixedBlockTime(m2)) => m2 == m && (tick
                    ==> (r matches Some(batch) && batch@ == ready@)) && (!tick ==> r is None),
                (MiningMode::Instant(m), MiningMode::Instant(m2)) => {
                    let notified = m.ready@.to_set() + received@.to_set();
                    let n = batch_len(ready@.len(), m.max_transactions);
                    &&& m2.max_transactions == m.max_transactions
                    &&& notified.is_empty() ==> r is None && m2.ready@.to_set() == notified
                    &&& !notified.is_empty() ==> (r matches Some(batch) && batch@ == ready@.take(n)
                        && m2.ready@.to_set() == notified.difference(hashes_of(ready@.take(n))))
                },
                _ => false,
            },
    {
        self.mode.poll(received, tick, ready)
    }
}

} // verus!
