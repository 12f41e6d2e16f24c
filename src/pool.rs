//! The transaction pool: admitted transactions split into those that are
//! ready (their nonce continues the sender's chain) and those still waiting
//! for a gap to close.

use crate::types::{Address, H256};
use vstd::prelude::*;

verus! {

/// A signed transaction as the pool holds it, its sender already recovered.
#[derive(Debug, Clone, Copy, PartialEq, Eq, Structural)]
pub struct PoolTransaction {
    /// The transaction hash, a function of the signed envelope.
    pub hash: H256,
    pub sender: Address,
    pub nonce: u64,
    /// The effective gas price.
    pub gas_price: u128,
}

/// Why a transaction was not admitted.
#[derive(Debug, Clone, Copy, PartialEq, Eq, Structural)]
pub enum PoolError {
    /// A transaction with the same hash is already in the pool.
    AlreadyKnown,
    /// The nonce lies below the sender's next free nonce.
    NonceTooLow,
}

/// Where an admitted transaction went.
#[derive(Debug, Clone, PartialEq, Eq)]
pub enum AddedTransaction {
    /// It is ready; the hashes that became ready with it, itself first.
    Ready(Vec<H256>),
    /// It waits for a lower nonce of its sender.
    Pending,
}

/// `i` is the first transaction of its sender in `txs`.
pub open spec fn is_head(txs: Seq<PoolTransaction>, i: int) -> bool {
    &&& 0 <= i < txs.len()
    &&& forall|j: int| 0 <= j < i ==> (#[trigger] txs[j]).sender != txs[i].sender
}

/// `i` is the head with the highest gas price, the earliest among equals.
pub open spec fn is_best_head(txs: Seq<PoolTransaction>, i: int) -> bool {
    &&& is_head(txs, i)
    &&& forall|j: int|
        is_head(txs, j) ==> #[trigger] txs[j].gas_price < txs[i].gas_price || (txs[j].gas_price
            == txs[i].gas_price && j >= i)
}

/// The order in which ready transactions are handed out: each step takes,
/// among the first transaction of every sender, the one with the highest gas
/// price, the earliest inserted among equals.
pub open spec fn best_first(txs: Seq<PoolTransaction>) -> Seq<PoolTransaction>
    decreases txs.len(),
{
    if txs.len() == 0 {
        Seq::empty()
    } else if exists|i: int| is_best_head(txs, i) {
        let i = choose|i: int| is_best_head(txs, i);
        seq![txs[i]] + best_first(txs.remove(i))
    } else {
        Seq::empty()
    }
}

/// Within each sender, nonces rise along the sequence.
pub open spec fn sender_ordered(txs: Seq<PoolTransaction>) -> bool {
    forall|i: int, j: int|
        0 <= i < j < txs.len() && #[trigger] txs[i].sender == #[trigger] txs[j].sender
            ==> txs[i].nonce < txs[j].nonce
}

pub open spec fn has_hash(txs: Seq<PoolTransaction>, h: H256) -> bool {
    exists|i: int| 0 <= i < txs.len() && (#[trigger] txs[i]).hash == h
}

proof fn lemma_best_head_unique(txs: Seq<PoolTransaction>, i: int, k: int)
    requires
        is_best_head(txs, i),
        is_best_head(txs, k),
    ensures
        i == k,
{
    assert(txs[k].gas_price < txs[i].gas_price || (txs[k].gas_price == txs[i].gas_price && k
        >= i));
    assert(txs[i].gas_price < txs[k].gas_price || (txs[i].gas_price == txs[k].gas_price && i
        >= k));
}

/// The best head among the first `m` transactions.
spec fn best_upto(txs: Seq<PoolTransaction>, m: int) -> int
    decreases m,
{
    if m <= 1 {
        0
    } else {
        let b = best_upto(txs, m - 1);
        if is_head(txs, m - 1) && txs[m - 1].gas_price > txs[b].gas_price {
            m - 1
        } else {
            b
        }
    }
}

proof fn lemma_best_upto(txs: Seq<PoolTransaction>, m: int)
    requires
        1 <= m <= txs.len(),
    ensures
        is_head(txs, best_upto(txs, m)),
        best_upto(txs, m) < m,
        forall|j: int|
            0 <= j < m && is_head(txs, j) ==> #[trigger] txs[j].gas_price < txs[best_upto(
                txs,
                m,
            )].gas_price || (txs[j].gas_price == txs[best_upto(txs, m)].gas_price && j
                >= best_upto(txs, m)),
    decreases m,
{
    if m > 1 {
        lemma_best_upto(txs, m - 1);
    }
}

proof fn lemma_best_head_exists(txs: Seq<PoolTransaction>)
    requires
        txs.len() > 0,
    ensures
        exists|i: int| is_best_head(txs, i),
{
    lemma_best_upto(txs, txs.len() as int);
    assert(is_best_head(txs, best_upto(txs, txs.len() as int)));
}

/// Every transaction handed out comes from the input, and all of it comes out.
pub proof fn lemma_best_first_members(txs: Seq<PoolTransaction>)
    ensures
        best_first(txs).len() == txs.len(),
        forall|x: PoolTransaction| #[trigger] best_first(txs).contains(x) ==> txs.contains(x),
    decreases txs.len(),
{
    if txs.len() > 0 {
        lemma_best_head_exists(txs);
        let i = choose|i: int| is_best_head(txs, i);
        let rest = txs.remove(i);
        lemma_best_first_members(rest);
        assert forall|x: PoolTransaction| #[trigger] best_first(txs).contains(x) implies txs.contains(
            x,
        ) by {
            let out = best_first(txs);
            let p = choose|p: int| 0 <= p < out.len() && out[p] == x;
            if p == 0 {
                assert(txs[i] == x);
            } else {
                assert(best_first(rest)[p - 1] == x);
                assert(best_first(rest).contains(x));
                let q = choose|q: int| 0 <= q < rest.len() && rest[q] == x;
                if q < i {
                    assert(txs[q] == x);
                } else {
                    assert(txs[q + 1] == x);
                }
            }
        }
    }
}

/// Pool ordering: however transactions of many senders were admitted, the
/// order in which ready transactions are handed out keeps each sender's
/// transactions in ascending nonce order.
pub proof fn lemma_best_first_keeps_sender_order(txs: Seq<PoolTransaction>)
    requires
        sender_ordered(txs),
    ensures
        sender_ordered(best_first(txs)),
    decreases txs.len(),
{
    if txs.len() > 0 {
        lemma_best_head_exists(txs);
        let i = choose|i: int| is_best_head(txs, i);
        let rest = txs.remove(i);
        assert(sender_ordered(rest)) by {
            assert forall|a: int, b: int|
                0 <= a < b < rest.len() && #[trigger] rest[a].sender == #[trigger] rest[b].sender
                    implies rest[a].nonce < rest[b].nonce by {
                let a0 = if a < i { a } else { a + 1 };
                let b0 = if b < i { b } else { b + 1 };
                assert(rest[a] == txs[a0] && rest[b] == txs[b0]);
            }
        }
        lemma_best_first_keeps_sender_order(rest);
        lemma_best_first_members(rest);
        let out = best_first(txs);
        let tail = best_first(rest);
        assert forall|a: int, b: int|
            0 <= a < b < out.len() && #[trigger] out[a].sender == #[trigger] out[b].sender implies out[a].nonce
            < out[b].nonce by {
            if a == 0 {
                assert(out[b] == tail[b - 1]);
                assert(tail.contains(out[b]));
                let q = choose|q: int| 0 <= q < rest.len() && rest[q] == out[b];
                let q0 = if q < i { q } else { q + 1 };
                assert(txs[q0] == out[b]);
                assert(out[0] == txs[i]);
                if q0 < i {
                    assert(txs[q0].sender != txs[i].sender);
                }
            } else {
                assert(out[a] == tail[a - 1] && out[b] == tail[b - 1]);
            }
        }
    }
}

/// Index of the best head of `txs`.
fn best_head(txs: &Vec<PoolTransaction>) -> (r: usize)
    requires
        txs@.len() > 0,
    ensures
        is_best_head(txs@, r as int),
{
    let mut best: usize = 0;
    let mut m: usize = 1;
    assert(is_head(txs@, 0));
    while m < txs.len()
        invariant
            1 <= m <= txs@.len(),
            is_head(txs@, best as int),
            best < m,
            forall|j: int|
                0 <= j < m && is_head(txs@, j) ==> #[trigger] txs@[j].gas_price
                    < txs@[best as int].gas_price || (txs@[j].gas_price == txs@[best as int].gas_price
                    && j >= best),
        decreases txs@.len() - m,
    {
        let mut head = true;
        let mut j: usize = 0;
        while j < m
            invariant
                j <= m < txs@.len(),
                head == forall|q: int| 0 <= q < j ==> (#[trigger] txs@[q]).sender != txs@[m as int].sender,
            decreases m - j,
        {
            if txs[j].sender == txs[m].sender {
                head = false;
            }
            j = j + 1;
        }
        assert(head == is_head(txs@, m as int));
        if head && txs[m].gas_price > txs[best].gas_price {
            best = m;
        }
        m = m + 1;
    }
    best
}

/// The admitted transactions.
#[derive(Debug)]
pub struct Pool {
    /// Ready transactions, in the order they became ready.
    pub ready: Vec<PoolTransaction>,
    /// Transactions waiting for a lower nonce of their sender.
    pub pending: Vec<PoolTransaction>,
}

impl Pool {
    /// Within a sender, ready nonces rise along the ready set; no hash is
    /// held twice, within or across the two sets.
    pub open spec fn wf(&self) -> bool {
        &&& sender_ordered(self.ready@)
        &&& hashes_unique(self.ready@, self.pending@)
    }

    pub open spec fn all(&self) -> Seq<PoolTransaction> {
        self.ready@ + self.pending@
    }

    pub fn new() -> (r: Pool)
        ensures
            r.wf(),
            r.ready@.len() == 0,
            r.pending@.len() == 0,
    {
        Pool { ready: Vec::new(), pending: Vec::new() }
    }

    /// The ready transactions, best first.
    pub fn ready_transactions(&self) -> (r: Vec<PoolTransaction>)
        ensures
            r@ == best_first(self.ready@),
            self.wf() ==> sender_ordered(r@),
            self.wf() ==> distinct_hashes(r@),
    {
        proof {
            if self.wf() {
                lemma_best_first_keeps_sender_order(self.ready@);
                lemma_best_first_distinct(self.ready@);
            }
        }
        let mut rest = self.ready.clone();
        let mut out: Vec<PoolTransaction> = Vec::new();
        assert(rest@ =~= self.ready@);
        while rest.len() > 0
            invariant
                out@ + best_first(rest@) == best_first(self.ready@),
            decreases rest@.len(),
        {
            let i = best_head(&rest);
            proof {
                let c = choose|k: int| is_best_head(rest@, k);
                lemma_best_head_unique(rest@, i as int, c);
            }
            let ghost before = rest@;
            let tx = rest.remove(i);
            out.push(tx);
            assert(out@ + best_first(rest@) =~= best_first(self.ready@)) by {
                assert(best_first(before) == seq![tx] + best_first(rest@));
            }
        }
        assert(best_first(rest@) =~= Seq::<PoolTransaction>::empty());
        assert(out@ =~= best_first(self.ready@));
        out
    }

    /// Admits `tx`, whose sender's on-chain nonce is `on_chain_nonce`.
    ///
    /// A known hash is refused, as is a nonce below the sender's next free
    /// nonce: the one after its last ready transaction, or the on-chain nonce
    /// where it has none. At that nonce the transaction becomes ready, and so
    /// do the waiting transactions of its sender that continue the chain; above
    /// it, it waits.
    pub fn add_transaction(&mut self, tx: PoolTransaction, on_chain_nonce: u64) -> (r: Result<
        AddedTransaction,
        PoolError,
    >)
        requires
            old(self).wf(),
        ensures
            final(self).wf(),
            admission(old(self).ready@, old(self).pending@, tx, on_chain_nonce as int) == (
            final(self).ready@, final(self).pending@),
            has_hash(old(self).all(), tx.hash) ==> r == Err::<AddedTransaction, PoolError>(
                PoolError::AlreadyKnown,
            ),
            !has_hash(old(self).all(), tx.hash) && too_low(old(self).ready@, tx, on_chain_nonce as int)
                ==> r == Err::<AddedTransaction, PoolError>(PoolError::NonceTooLow),
            !has_hash(old(self).all(), tx.hash) && waits(old(self).ready@, tx, on_chain_nonce as int)
                ==> r == Ok::<AddedTransaction, PoolError>(AddedTransaction::Pending),
            !has_hash(old(self).all(), tx.hash) && !too_low(old(self).ready@, tx, on_chain_nonce as int)
                && !waits(old(self).ready@, tx, on_chain_nonce as int) ==> (r matches Ok(
                AddedTransaction::Ready(hashes),
            ) && hashes@ == final(self).ready@.skip(old(self).ready@.len() as int).map_values(
                |t: PoolTransaction| t.hash,
            )),
    {
        if self.knows(&tx.hash) {
            return Err(PoolError::AlreadyKnown);
        }
        let next = self.next_free_nonce(tx.sender, on_chain_nonce);
        if tx.nonce < on_chain_nonce || (tx.nonce as u128) < next {
            return Err(PoolError::NonceTooLow);
        }
        if (tx.nonce as u128) > next {
            proof {
                lemma_unique_add(self.ready@, self.pending@, tx);
            }
            self.pending.push(tx);
            return Ok(AddedTransaction::Pending);
        }
        proof {
            lemma_next_nonce_bound(self.ready@, tx.sender, on_chain_nonce as int);
            lemma_sender_ordered_append(self.ready@, tx);
            lemma_unique_add(self.ready@, self.pending@, tx);
        }
        let start = self.ready.len();
        self.ready.push(tx);
        let hashes = self.promote_waiting(start);
        Ok(AddedTransaction::Ready(hashes))
    }

    /// Whether a transaction with hash `h` is in the pool.
    fn knows(&self, h: &H256) -> (r: bool)
        ensures
            r == has_hash(self.all(), *h),
    {
        let mut k: usize = 0;
        while k < self.ready.len()
            invariant
                k <= self.ready@.len(),
                forall|j: int| 0 <= j < k ==> (#[trigger] self.ready@[j]).hash != *h,
            decreases self.ready@.len() - k,
        {
            if self.ready[k].hash == *h {
                assert(self.all()[k as int] == self.ready@[k as int]);
                return true;
            }
            k = k + 1;
        }
        let mut k: usize = 0;
        while k < self.pending.len()
            invariant
                k <= self.pending@.len(),
                forall|j: int| 0 <= j < self.ready@.len() ==> (#[trigger] self.ready@[j]).hash != *h,
                forall|j: int| 0 <= j < k ==> (#[trigger] self.pending@[j]).hash != *h,
            decreases self.pending@.len() - k,
        {
            if self.pending[k].hash == *h {
                assert(self.all()[self.ready@.len() + k] == self.pending@[k as int]);
                return true;
            }
            k = k + 1;
        }
        assert forall|i: int| 0 <= i < self.all().len() implies (#[trigger] self.all()[i]).hash
            != *h by {
            if i < self.ready@.len() {
                assert(self.all()[i] == self.ready@[i]);
            } else {
                assert(self.all()[i] == self.pending@[i - self.ready@.len()]);
            }
        }
        false
    }

    /// Moves the waiting transactions that continue the chain of the last
    /// ready transaction; returns the hashes of the ready ones from `start`.
    #[verifier::rlimit(40)]
    fn promote_waiting(&mut self, start: usize) -> (hashes: Vec<H256>)
        requires
            start == old(self).ready@.len() - 1,
            sender_ordered(old(self).ready@),
            hashes_unique(old(self).ready@, old(self).pending@),
        ensures
            sender_ordered(final(self).ready@),
            hashes_unique(final(self).ready@, final(self).pending@),
            (final(self).ready@, final(self).pending@) == promote(
                old(self).ready@,
                old(self).pending@,
                old(self).ready@.last().sender,
                old(self).ready@.last().nonce + 1,
            ),
            hashes@ == final(self).ready@.skip(start as int).map_values(|t: PoolTransaction| t.hash),
    {
        let sender = self.ready[start].sender;
        let mut want: u128 = self.ready[start].nonce as u128 + 1;
        let mut hashes: Vec<H256> = Vec::new();
        hashes.push(self.ready[start].hash);
        assert(self.ready@.skip(start as int) =~= seq![self.ready@[start as int]]);
        loop
            invariant
                start < self.ready@.len(),
                sender_ordered(self.ready@),
                hashes_unique(self.ready@, self.pending@),
                self.ready@.last().sender == sender,
                want == self.ready@.last().nonce + 1,
                sender == old(self).ready@.last().sender,
                promote(self.ready@, self.pending@, sender, want as int) == promote(
                    old(self).ready@,
                    old(self).pending@,
                    sender,
                    old(self).ready@.last().nonce + 1,
                ),
                hashes@ == self.ready@.skip(start as int).map_values(|t: PoolTransaction| t.hash),
            ensures
                sender_ordered(self.ready@),
                hashes_unique(self.ready@, self.pending@),
                (self.ready@, self.pending@) == promote(
                    old(self).ready@,
                    old(self).pending@,
                    sender,
                    old(self).ready@.last().nonce + 1,
                ),
                hashes@ == self.ready@.skip(start as int).map_values(|t: PoolTransaction| t.hash),
            decreases self.pending@.len(),
        {
            match find_next(&self.pending, sender, want) {
                None => {
                    assert(promote(self.ready@, self.pending@, sender, want as int) == (
                    self.ready@, self.pending@));
                    break;
                },
                Some(i) => {
                    let ghost r0 = self.ready@;
                    let ghost p0 = self.pending@;
                    let t = self.pending.remove(i);
                    proof {
                        lemma_sender_ordered_push(r0, t);
                        lemma_unique_move(r0, p0, i as int);
                    }
                    self.ready.push(t);
                    hashes.push(t.hash);
                    want = want + 1;
                    assert(self.ready@.skip(start as int) =~= r0.skip(start as int).push(t));
                    assert(hashes@ =~= self.ready@.skip(start as int).map_values(
                        |t: PoolTransaction| t.hash,
                    ));
                },
            }
        }
        hashes
    }

    /// The sender's next free nonce, given its on-chain nonce.
    fn next_free_nonce(&self, sender: Address, on_chain_nonce: u64) -> (r: u128)
        ensures
            r == next_nonce(self.ready@, sender, on_chain_nonce as int),
    {
        let mut k = self.ready.len();
        assert(self.ready@.take(k as int) =~= self.ready@);
        while k > 0
            invariant
                k <= self.ready@.len(),
                next_nonce(self.ready@, sender, on_chain_nonce as int) == next_nonce(
                    self.ready@.take(k as int),
                    sender,
                    on_chain_nonce as int,
                ),
            decreases k,
        {
            let ghost t = self.ready@.take(k as int);
            assert(t.drop_last() =~= self.ready@.take(k - 1));
            assert(t.last() == self.ready@[k - 1]);
            if self.ready[k - 1].sender == sender {
                return self.ready[k - 1].nonce as u128 + 1;
            }
            k = k - 1;
        }
        on_chain_nonce as u128
    }

    /// Drops the transactions with the given hashes, as when a block that
    /// holds them is committed.
    pub fn remove_transactions(&mut self, hashes: &Vec<H256>)
        requires
            old(self).wf(),
        ensures
            final(self).wf(),
            final(self).ready@ == without(old(self).ready@, hashes@),
            final(self).pending@ == without(old(self).pending@, hashes@),
    {
        let ready = keep_unlisted(&self.ready, hashes);
        let pending = keep_unlisted(&self.pending, hashes);
        proof {
            lemma_without_sender_ordered(self.ready@, hashes@);
            lemma_without_unique(self.ready@, self.pending@, hashes@);
        }
        self.ready = ready;
        self.pending = pending;
    }
}

/// The nonce lies below the on-chain nonce or the sender's next free nonce.
pub open spec fn too_low(ready: Seq<PoolTransaction>, tx: PoolTransaction, n: int) -> bool {
    tx.nonce < n || tx.nonce < next_nonce(ready, tx.sender, n)
}

/// The nonce leaves a gap after the sender's next free nonce.
pub open spec fn waits(ready: Seq<PoolTransaction>, tx: PoolTransaction, n: int) -> bool {
    !too_low(ready, tx, n) && tx.nonce > next_nonce(ready, tx.sender, n)
}

/// The ready and waiting transactions after admitting `tx`.
pub open spec fn admission(
    ready: Seq<PoolTransaction>,
    pending: Seq<PoolTransaction>,
    tx: PoolTransaction,
    n: int,
) -> (Seq<PoolTransaction>, Seq<PoolTransaction>) {
    if has_hash(ready + pending, tx.hash) || too_low(ready, tx, n) {
        (ready, pending)
    } else if waits(ready, tx, n) {
        (ready, pending.push(tx))
    } else {
        promote(ready.push(tx), pending, tx.sender, tx.nonce + 1)
    }
}

/// The sender's next free nonce: one past its last ready transaction, or the
/// on-chain nonce `n` where it has none.
pub open spec fn next_nonce(ready: Seq<PoolTransaction>, sender: Address, n: int) -> int
    decreases ready.len(),
{
    if ready.len() == 0 {
        n
    } else if ready.last().sender == sender {
        ready.last().nonce + 1
    } else {
        next_nonce(ready.drop_last(), sender, n)
    }
}

/// The first waiting transaction of `sender` with nonce `nonce`.
pub open spec fn first_with_nonce(pending: Seq<PoolTransaction>, sender: Address, nonce: int) -> int {
    choose|i: int|
        0 <= i < pending.len() && pending[i].sender == sender && pending[i].nonce == nonce && forall|
            j: int,
        |
            0 <= j < i ==> !(#[trigger] pending[j].sender == sender && pending[j].nonce == nonce)
}

pub open spec fn has_nonce(pending: Seq<PoolTransaction>, sender: Address, nonce: int) -> bool {
    exists|i: int|
        0 <= i < pending.len() && (#[trigger] pending[i]).sender == sender && pending[i].nonce
            == nonce
}

/// Moves, one by one, the waiting transactions of `sender` whose nonces
/// continue from `nonce` to the end of the ready ones.
pub open spec fn promote(
    ready: Seq<PoolTransaction>,
    pending: Seq<PoolTransaction>,
    sender: Address,
    nonce: int,
) -> (Seq<PoolTransaction>, Seq<PoolTransaction>)
    decreases pending.len(),
{
    if has_nonce(pending, sender, nonce) {
        let i = first_with_nonce(pending, sender, nonce);
        if 0 <= i < pending.len() {
            promote(ready.push(pending[i]), pending.remove(i), sender, nonce + 1)
        } else {
            (ready, pending)
        }
    } else {
        (ready, pending)
    }
}

/// The transactions whose hash is not among `hashes`, in order.
pub open spec fn without(txs: Seq<PoolTransaction>, hashes: Seq<H256>) -> Seq<PoolTransaction>
    decreases txs.len(),
{
    if txs.len() == 0 {
        Seq::empty()
    } else if hashes.contains(txs.last().hash) {
        without(txs.drop_last(), hashes)
    } else {
        without(txs.drop_last(), hashes).push(txs.last())
    }
}

proof fn lemma_next_nonce_bound(ready: Seq<PoolTransaction>, sender: Address, n: int)
    requires
        sender_ordered(ready),
    ensures
        forall|i: int|
            0 <= i < ready.len() && (#[trigger] ready[i]).sender == sender ==> ready[i].nonce
                < next_nonce(ready, sender, n),
    decreases ready.len(),
{
    if ready.len() > 0 {
        let d = ready.drop_last();
        assert(sender_ordered(d)) by {
            assert forall|i: int, j: int|
                0 <= i < j < d.len() && #[trigger] d[i].sender == #[trigger] d[j].sender implies d[i].nonce
                < d[j].nonce by {
                assert(d[i] == ready[i] && d[j] == ready[j]);
            }
        }
        lemma_next_nonce_bound(d, sender, n);
        assert forall|i: int|
            0 <= i < ready.len() && (#[trigger] ready[i]).sender == sender implies ready[i].nonce
            < next_nonce(ready, sender, n) by {
            if i < ready.len() - 1 {
                assert(d[i] == ready[i]);
                if ready.last().sender == sender {
                    assert(ready[i].nonce < ready[ready.len() - 1].nonce);
                }
            }
        }
    }
}

proof fn lemma_sender_ordered_push(ready: Seq<PoolTransaction>, t: PoolTransaction)
    requires
        sender_ordered(ready),
        ready.len() > 0,
        ready.last().sender == t.sender,
        t.nonce == ready.last().nonce + 1,
    ensures
        sender_ordered(ready.push(t)),
{
    let n = ready.push(t);
    assert forall|i: int, j: int|
        0 <= i < j < n.len() && #[trigger] n[i].sender == #[trigger] n[j].sender implies n[i].nonce
        < n[j].nonce by {
        if j == ready.len() {
            assert(n[i] == ready[i]);
            if i < ready.len() - 1 {
                assert(ready[i].nonce < ready[ready.len() - 1].nonce);
            }
        } else {
            assert(n[i] == ready[i] && n[j] == ready[j]);
        }
    }
}

proof fn lemma_sender_ordered_append(ready: Seq<PoolTransaction>, t: PoolTransaction)
    requires
        sender_ordered(ready),
        forall|i: int|
            0 <= i < ready.len() && (#[trigger] ready[i]).sender == t.sender ==> ready[i].nonce
                < t.nonce,
    ensures
        sender_ordered(ready.push(t)),
{
    let n = ready.push(t);
    assert forall|i: int, j: int|
        0 <= i < j < n.len() && #[trigger] n[i].sender == #[trigger] n[j].sender implies n[i].nonce
        < n[j].nonce by {
        assert(n[i] == ready[i]);
        if j < ready.len() {
            assert(n[j] == ready[j]);
        }
    }
}

proof fn lemma_without_members(txs: Seq<PoolTransaction>, hashes: Seq<H256>, x: PoolTransaction)
    ensures
        without(txs, hashes).contains(x) ==> txs.contains(x) && !hashes.contains(x.hash),
    decreases txs.len(),
{
    if txs.len() > 0 {
        lemma_without_members(txs.drop_last(), hashes, x);
        let w = without(txs.drop_last(), hashes);
        if without(txs, hashes).contains(x) {
            if !hashes.contains(txs.last().hash) && x == txs.last() {
                assert(txs[txs.len() - 1] == x);
            } else {
                if !hashes.contains(txs.last().hash) {
                    let p = choose|p: int| 0 <= p < w.push(txs.last()).len() && w.push(txs.last())[p] == x;
                    assert(w[p] == x);
                }
                assert(w.contains(x));
                let q = choose|q: int| 0 <= q < txs.drop_last().len() && txs.drop_last()[q] == x;
                assert(txs[q] == x);
            }
        }
    }
}

proof fn lemma_without_sender_ordered(txs: Seq<PoolTransaction>, hashes: Seq<H256>)
    requires
        sender_ordered(txs),
    ensures
        sender_ordered(without(txs, hashes)),
    decreases txs.len(),
{
    if txs.len() > 0 {
        let d = txs.drop_last();
        assert(sender_ordered(d)) by {
            assert forall|i: int, j: int|
                0 <= i < j < d.len() && #[trigger] d[i].sender == #[trigger] d[j].sender implies d[i].nonce
                < d[j].nonce by {
                assert(d[i] == txs[i] && d[j] == txs[j]);
            }
        }
        lemma_without_sender_ordered(d, hashes);
        if !hashes.contains(txs.last().hash) {
            let w = without(d, hashes);
            let n = w.push(txs.last());
            assert forall|i: int, j: int|
                0 <= i < j < n.len() && #[trigger] n[i].sender == #[trigger] n[j].sender implies n[i].nonce
                < n[j].nonce by {
                if j == w.len() {
                    assert(n[i] == w[i]);
                    lemma_without_members(d, hashes, w[i]);
                    assert(w.contains(w[i]));
                    let q = choose|q: int| 0 <= q < d.len() && d[q] == w[i];
                    assert(txs[q] == w[i]);
                    assert(txs[txs.len() - 1] == txs.last());
                } else {
                    assert(n[i] == w[i] && n[j] == w[j]);
                }
            }
        }
    }
}

/// The index of the first waiting transaction of `sender` with nonce `nonce`.
fn find_next(pending: &Vec<PoolTransaction>, sender: Address, nonce: u128) -> (r: Option<usize>)
    ensures
        match r {
            Some(i) => i < pending@.len() && pending@[i as int].sender == sender && pending@[i as int].nonce
                == nonce && has_nonce(pending@, sender, nonce as int) && i == first_with_nonce(
                pending@,
                sender,
                nonce as int,
            ),
            None => !has_nonce(pending@, sender, nonce as int),
        },
{
    let mut i: usize = 0;
    while i < pending.len()
        invariant
            i <= pending@.len(),
            forall|j: int|
                0 <= j < i ==> !(#[trigger] pending@[j].sender == sender && pending@[j].nonce
                    == nonce),
        decreases pending@.len() - i,
    {
        if pending[i].sender == sender && pending[i].nonce as u128 == nonce {
            proof {
                let c = first_with_nonce(pending@, sender, nonce as int);
                assert(pending@[i as int].sender == sender);
                if c != i {
                    if c < i {
                        assert(!(pending@[c].sender == sender && pending@[c].nonce == nonce));
                    } else {
                        assert(!(pending@[i as int].sender == sender && pending@[i as int].nonce
                            == nonce));
                    }
                }
            }
            return Some(i);
        }
        i = i + 1;
    }
    None
}

/// The transactions of `txs` whose hash is not listed, in order.
fn keep_unlisted(txs: &Vec<PoolTransaction>, hashes: &Vec<H256>) -> (r: Vec<PoolTransaction>)
    ensures
        r@ == without(txs@, hashes@),
{
    let mut r: Vec<PoolTransaction> = Vec::new();
    let mut k: usize = 0;
    while k < txs.len()
        invariant
            k <= txs@.len(),
            r@ == without(txs@.take(k as int), hashes@),
        decreases txs@.len() - k,
    {
        let ghost t = txs@.take(k + 1);
        assert(t.drop_last() =~= txs@.take(k as int));
        assert(t.last() == txs@[k as int]);
        let mut listed = false;
        let mut m: usize = 0;
        while m < hashes.len()
            invariant
                m <= hashes@.len(),
                k < txs@.len(),
                listed == exists|q: int| 0 <= q < m && hashes@[q] == txs@[k as int].hash,
            decreases hashes@.len() - m,
        {
            if hashes[m] == txs[k].hash {
                listed = true;
            }
            m = m + 1;
        }
        if !listed {
            r.push(txs[k]);
        }
        k = k + 1;
    }
    assert(txs@.take(k as int) =~= txs@);
    r
}

/// A transaction removed with its block is never handed out again.
pub proof fn lemma_removed_not_offered(before: Seq<PoolTransaction>, hashes: Seq<H256>, x: PoolTransaction)
    requires
        hashes.contains(x.hash),
    ensures
        !best_first(without(before, hashes)).contains(x),
{
    lemma_best_first_members(without(before, hashes));
    lemma_without_members(before, hashes, x);
}


proof fn lemma_best_first_has_all(txs: Seq<PoolTransaction>, x: PoolTransaction)
    requires
        txs.contains(x),
    ensures
        best_first(txs).contains(x),
    decreases txs.len(),
{
    lemma_best_head_exists(txs);
    let i = choose|i: int| is_best_head(txs, i);
    let rest = txs.remove(i);
    let out = best_first(txs);
    if txs[i] == x {
        assert(out[0] == x);
    } else {
        let q = choose|q: int| 0 <= q < txs.len() && txs[q] == x;
        let q2 = if q < i { q } else { q - 1 };
        assert(rest[q2] == x);
        lemma_best_first_has_all(rest, x);
        let p = choose|p: int| 0 <= p < best_first(rest).len() && best_first(rest)[p] == x;
        assert(out[p + 1] == x);
    }
}

proof fn lemma_prefix_sender_ordered(txs: Seq<PoolTransaction>, n: int)
    requires
        sender_ordered(txs),
        0 <= n <= txs.len(),
    ensures
        sender_ordered(txs.take(n)),
{
    let t = txs.take(n);
    assert forall|i: int, j: int|
        0 <= i < j < t.len() && #[trigger] t[i].sender == #[trigger] t[j].sender implies t[i].nonce
        < t[j].nonce by {
        assert(t[i] == txs[i] && t[j] == txs[j]);
    }
}

/// The hashes of a batch.
pub open spec fn batch_hashes(batch: Seq<PoolTransaction>) -> Seq<H256> {
    batch.map_values(|t: PoolTransaction| t.hash)
}

/// Successive batches: each is a prefix of the ready transactions in the order
/// they are handed out, and the next ready set is the current one without the
/// batch, committed in between.
pub open spec fn batch_run(readies: Seq<Seq<PoolTransaction>>, batches: Seq<Seq<PoolTransaction>>) -> bool {
    &&& readies.len() == batches.len()
    &&& forall|i: int|
        0 <= i < batches.len() ==> #[trigger] batches[i] == best_first(readies[i]).take(
            batches[i].len() as int,
        ) && batches[i].len() <= readies[i].len()
    &&& forall|i: int|
        0 <= i < batches.len() - 1 ==> #[trigger] readies[i + 1] == without(
            readies[i],
            batch_hashes(batches[i]),
        )
}

proof fn lemma_batch_run_members(
    readies: Seq<Seq<PoolTransaction>>,
    batches: Seq<Seq<PoolTransaction>>,
    x: PoolTransaction,
)
    requires
        batch_run(readies, batches),
        batches.len() >= 1,
        batches.flatten().contains(x),
    ensures
        readies[0].contains(x),
    decreases batches.len(),
{
    let b0 = batches[0];
    let rest = batches.drop_first();
    assert(batches.flatten() =~= b0 + rest.flatten());
    lemma_best_first_members(readies[0]);
    if b0.contains(x) {
        let p = choose|p: int| 0 <= p < b0.len() && b0[p] == x;
        assert(best_first(readies[0])[p] == x);
        assert(best_first(readies[0]).contains(x));
    } else {
        let f = b0 + rest.flatten();
        let p = choose|p: int| 0 <= p < f.len() && f[p] == x;
        assert(p >= b0.len());
        assert(rest.flatten()[p - b0.len()] == x);
        assert(rest.flatten().contains(x));
        let rr = readies.drop_first();
        assert(batch_run(rr, rest)) by {
            assert forall|i: int| 0 <= i < rest.len() implies #[trigger] rest[i] == best_first(
                rr[i],
            ).take(rest[i].len() as int) && rest[i].len() <= rr[i].len() by {
                assert(rest[i] == batches[i + 1] && rr[i] == readies[i + 1]);
            }
            assert forall|i: int| 0 <= i < rest.len() - 1 implies #[trigger] rr[i + 1] == without(
                rr[i],
                batch_hashes(rest[i]),
            ) by {
                assert(rr[i + 1] == readies[i + 2] && rr[i] == readies[i + 1] && rest[i] == batches[i
                    + 1]);
            }
        }
        lemma_batch_run_members(rr, rest, x);
        assert(readies[1] == without(readies[0], batch_hashes(b0)));
        lemma_without_members(readies[0], batch_hashes(b0), x);
    }
}

/// Pool ordering across blocks: batch after batch taken from the front of the
/// ready order, with each batch's transactions removed once its block is
/// committed, every sender's transactions come out in ascending nonce order.
pub proof fn lemma_batches_keep_sender_order(
    readies: Seq<Seq<PoolTransaction>>,
    batches: Seq<Seq<PoolTransaction>>,
)
    requires
        batch_run(readies, batches),
        batches.len() >= 1,
        sender_ordered(readies[0]),
    ensures
        sender_ordered(batches.flatten()),
    decreases batches.len(),
{
    let b0 = batches[0];
    let rest = batches.drop_first();
    let out = best_first(readies[0]);
    lemma_best_first_keeps_sender_order(readies[0]);
    lemma_best_first_members(readies[0]);
    lemma_prefix_sender_ordered(out, b0.len() as int);
    assert(batches.flatten() =~= b0 + rest.flatten());
    if rest.len() == 0 {
        assert(rest.flatten() =~= Seq::<PoolTransaction>::empty());
        assert(batches.flatten() =~= b0);
    } else {
        let rr = readies.drop_first();
        assert(batch_run(rr, rest)) by {
            assert forall|i: int| 0 <= i < rest.len() implies #[trigger] rest[i] == best_first(
                rr[i],
            ).take(rest[i].len() as int) && rest[i].len() <= rr[i].len() by {
                assert(rest[i] == batches[i + 1] && rr[i] == readies[i + 1]);
            }
            assert forall|i: int| 0 <= i < rest.len() - 1 implies #[trigger] rr[i + 1] == without(
                rr[i],
                batch_hashes(rest[i]),
            ) by {
                assert(rr[i + 1] == readies[i + 2] && rr[i] == readies[i + 1] && rest[i] == batches[i
                    + 1]);
            }
        }
        assert(readies[1] == without(readies[0], batch_hashes(b0)));
        lemma_without_sender_ordered(readies[0], batch_hashes(b0));
        lemma_batches_keep_sender_order(rr, rest);
        let f = b0 + rest.flatten();
        let tail = rest.flatten();
        assert forall|i: int, j: int|
            0 <= i < j < f.len() && #[trigger] f[i].sender == #[trigger] f[j].sender implies f[i].nonce
            < f[j].nonce by {
            if j < b0.len() {
                assert(f[i] == b0[i] && f[j] == b0[j]);
                assert(b0 == out.take(b0.len() as int));
            } else if i >= b0.len() {
                assert(f[i] == tail[i - b0.len()] && f[j] == tail[j - b0.len()]);
            } else {
                let y = f[j];
                assert(y == tail[j - b0.len()]);
                assert(tail.contains(y));
                lemma_batch_run_members(rr, rest, y);
                lemma_without_members(readies[0], batch_hashes(b0), y);
                lemma_best_first_has_all(readies[0], y);
                let q = choose|q: int| 0 <= q < out.len() && out[q] == y;
                assert(f[i] == out[i]);
                if q < b0.len() {
                    assert(b0[q] == y);
                    assert(batch_hashes(b0)[q] == y.hash);
                }
                assert(q >= b0.len());
            }
        }
    }
}


/// No two transactions of `s` share a hash.
pub open spec fn distinct_hashes(s: Seq<PoolTransaction>) -> bool {
    forall|i: int, j: int| 0 <= i < s.len() && 0 <= j < s.len() && i != j ==> #[trigger] s[i].hash != #[trigger] s[j].hash
}

/// No transaction of `a` shares a hash with one of `b`.
pub open spec fn apart(a: Seq<PoolTransaction>, b: Seq<PoolTransaction>) -> bool {
    forall|i: int, j: int| 0 <= i < a.len() && 0 <= j < b.len() ==> #[trigger] a[i].hash != #[trigger] b[j].hash
}

pub open spec fn hashes_unique(ready: Seq<PoolTransaction>, pending: Seq<PoolTransaction>) -> bool {
    distinct_hashes(ready) && distinct_hashes(pending) && apart(ready, pending)
}

proof fn lemma_unique_add(ready: Seq<PoolTransaction>, pending: Seq<PoolTransaction>, tx: PoolTransaction)
    requires
        hashes_unique(ready, pending),
        !has_hash(ready + pending, tx.hash),
    ensures
        hashes_unique(ready.push(tx), pending),
        hashes_unique(ready, pending.push(tx)),
{
    let all = ready + pending;
    assert forall|i: int| 0 <= i < ready.len() implies ready[i].hash != tx.hash by {
        assert(all[i] == ready[i]);
    }
    assert forall|j: int| 0 <= j < pending.len() implies pending[j].hash != tx.hash by {
        assert(all[ready.len() + j] == pending[j]);
    }
    let r2 = ready.push(tx);
    let p2 = pending.push(tx);
    assert forall|i: int, j: int| 0 <= i < r2.len() && 0 <= j < r2.len() && i != j implies #[trigger] r2[i].hash != #[trigger] r2[j].hash by {
        if i < ready.len() && j < ready.len() {
            assert(r2[i] == ready[i] && r2[j] == ready[j]);
        } else if i < ready.len() {
            assert(r2[i] == ready[i]);
        } else {
            assert(r2[j] == ready[j]);
        }
    }
    assert forall|i: int, j: int| 0 <= i < r2.len() && 0 <= j < pending.len() implies #[trigger] r2[i].hash != #[trigger] pending[j].hash by {
        if i < ready.len() {
            assert(r2[i] == ready[i]);
        }
    }
    assert forall|i: int, j: int| 0 <= i < p2.len() && 0 <= j < p2.len() && i != j implies #[trigger] p2[i].hash != #[trigger] p2[j].hash by {
        if i < pending.len() && j < pending.len() {
            assert(p2[i] == pending[i] && p2[j] == pending[j]);
        } else if i < pending.len() {
            assert(p2[i] == pending[i]);
        } else {
            assert(p2[j] == pending[j]);
        }
    }
    assert forall|i: int, j: int| 0 <= i < ready.len() && 0 <= j < p2.len() implies #[trigger] ready[i].hash != #[trigger] p2[j].hash by {
        if j < pending.len() {
            assert(p2[j] == pending[j]);
        }
    }
}

proof fn lemma_unique_move(ready: Seq<PoolTransaction>, pending: Seq<PoolTransaction>, k: int)
    requires
        hashes_unique(ready, pending),
        0 <= k < pending.len(),
    ensures
        hashes_unique(ready.push(pending[k]), pending.remove(k)),
{
    let t = pending[k];
    let r2 = ready.push(t);
    let p2 = pending.remove(k);
    // where an element of the shortened pending set came from
    assert forall|j: int| 0 <= j < p2.len() implies #[trigger] p2[j] == pending[if j < k { j } else { j + 1 }] by {}
    assert forall|i: int, j: int| 0 <= i < r2.len() && 0 <= j < r2.len() && i != j implies #[trigger] r2[i].hash != #[trigger] r2[j].hash by {
        if i < ready.len() && j < ready.len() {
            assert(r2[i] == ready[i] && r2[j] == ready[j]);
        } else if i < ready.len() {
            assert(r2[i] == ready[i] && r2[j] == pending[k]);
        } else {
            assert(r2[j] == ready[j] && r2[i] == pending[k]);
        }
    }
    assert forall|i: int, j: int| 0 <= i < p2.len() && 0 <= j < p2.len() && i != j implies #[trigger] p2[i].hash != #[trigger] p2[j].hash by {
        let i0 = if i < k { i } else { i + 1 };
        let j0 = if j < k { j } else { j + 1 };
        assert(p2[i] == pending[i0] && p2[j] == pending[j0]);
    }
    assert forall|i: int, j: int| 0 <= i < r2.len() && 0 <= j < p2.len() implies #[trigger] r2[i].hash != #[trigger] p2[j].hash by {
        let j0 = if j < k { j } else { j + 1 };
        assert(p2[j] == pending[j0]);
        if i < ready.len() {
            assert(r2[i] == ready[i]);
        } else {
            assert(r2[i] == pending[k]);
        }
    }
}

proof fn lemma_without_distinct(txs: Seq<PoolTransaction>, hashes: Seq<H256>)
    requires
        distinct_hashes(txs),
    ensures
        distinct_hashes(without(txs, hashes)),
    decreases txs.len(),
{
    if txs.len() > 0 {
        let d = txs.drop_last();
        assert(distinct_hashes(d)) by {
            assert forall|i: int, j: int| 0 <= i < d.len() && 0 <= j < d.len() && i != j implies #[trigger] d[i].hash != #[trigger] d[j].hash by {
                assert(d[i] == txs[i] && d[j] == txs[j]);
            }
        }
        lemma_without_distinct(d, hashes);
        if !hashes.contains(txs.last().hash) {
            let w = without(d, hashes);
            let n = w.push(txs.last());
            assert forall|i: int, j: int| 0 <= i < n.len() && 0 <= j < n.len() && i != j implies #[trigger] n[i].hash != #[trigger] n[j].hash by {
                if i < w.len() && j < w.len() {
                    assert(n[i] == w[i] && n[j] == w[j]);
                } else {
                    let m = if i < w.len() { i } else { j };
                    assert(n[m] == w[m]);
                    lemma_without_members(d, hashes, w[m]);
                    assert(w.contains(w[m]));
                    let q = choose|q: int| 0 <= q < d.len() && d[q] == w[m];
                    assert(txs[q] == w[m]);
                    assert(txs[txs.len() - 1] == txs.last());
                }
            }
        }
    }
}

proof fn lemma_without_unique(ready: Seq<PoolTransaction>, pending: Seq<PoolTransaction>, hashes: Seq<H256>)
    requires
        hashes_unique(ready, pending),
    ensures
        hashes_unique(without(ready, hashes), without(pending, hashes)),
{
    lemma_without_distinct(ready, hashes);
    lemma_without_distinct(pending, hashes);
    let a = without(ready, hashes);
    let b = without(pending, hashes);
    assert forall|i: int, j: int| 0 <= i < a.len() && 0 <= j < b.len() implies #[trigger] a[i].hash != #[trigger] b[j].hash by {
        lemma_without_members(ready, hashes, a[i]);
        lemma_without_members(pending, hashes, b[j]);
        assert(a.contains(a[i]));
        assert(b.contains(b[j]));
        let x = choose|x: int| 0 <= x < ready.len() && ready[x] == a[i];
        let y = choose|y: int| 0 <= y < pending.len() && pending[y] == b[j];
        assert(ready[x].hash != pending[y].hash);
    }
}

/// A transaction held once is handed out at most once: the ready order holds
/// no hash twice.
pub proof fn lemma_best_first_distinct(txs: Seq<PoolTransaction>)
    requires
        distinct_hashes(txs),
    ensures
        distinct_hashes(best_first(txs)),
    decreases txs.len(),
{
    if txs.len() > 0 {
        lemma_best_head_exists(txs);
        let i = choose|i: int| is_best_head(txs, i);
        let rest = txs.remove(i);
        assert(distinct_hashes(rest)) by {
            assert forall|a: int, b: int| 0 <= a < rest.len() && 0 <= b < rest.len() && a != b implies #[trigger] rest[a].hash != #[trigger] rest[b].hash by {
                let a0 = if a < i { a } else { a + 1 };
                let b0 = if b < i { b } else { b + 1 };
                assert(rest[a] == txs[a0] && rest[b] == txs[b0]);
            }
        }
        lemma_best_first_distinct(rest);
        lemma_best_first_members(rest);
        let out = best_first(txs);
        let tail = best_first(rest);
        assert forall|a: int, b: int| 0 <= a < out.len() && 0 <= b < out.len() && a != b implies #[trigger] out[a].hash != #[trigger] out[b].hash by {
            if a > 0 && b > 0 {
                assert(out[a] == tail[a - 1] && out[b] == tail[b - 1]);
            } else {
                let m = if a == 0 { b } else { a };
                assert(out[m] == tail[m - 1]);
                assert(tail.contains(out[m]));
                let q = choose|q: int| 0 <= q < rest.len() && rest[q] == out[m];
                let q0 = if q < i { q } else { q + 1 };
                assert(txs[q0] == out[m]);
                assert(out[0] == txs[i]);
            }
        }
    }
}


/// A resubmitted transaction is mined once: the pool holds each hash once, so
/// any batch taken from the front of the ready order holds it at most once.
pub proof fn lemma_batch_holds_each_once(pool: Pool, n: int)
    requires
        pool.wf(),
        0 <= n <= pool.ready@.len(),
    ensures
        distinct_hashes(best_first(pool.ready@).take(n)),
{
    lemma_best_first_distinct(pool.ready@);
    lemma_best_first_members(pool.ready@);
    let t = best_first(pool.ready@).take(n);
    assert forall|i: int, j: int| 0 <= i < t.len() && 0 <= j < t.len() && i != j implies #[trigger] t[i].hash != #[trigger] t[j].hash by {
        assert(t[i] == best_first(pool.ready@)[i] && t[j] == best_first(pool.ready@)[j]);
    }
}

} // verus!
