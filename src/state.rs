//! The state backend: a stack of layers of account and storage writes.
//!
//! Layer 0 is the base. Reads walk from the top layer down and take the
//! first write they meet; writes land on the top layer. A snapshot pushes a
//! new empty layer and is named by its index; reverting to it drops that
//! layer and every layer above it.

use crate::types::{keccak_empty, pow2_128, spec_keccak_empty, Address, H256, U256};
use vstd::prelude::*;

verus! {

/// The Keccak-256 digest of `data`, read as a big-endian number.
pub uninterp spec fn keccak256_of(data: Seq<u8>) -> nat;

/// Relies on `ethers_core::utils::keccak256`: the Keccak-256 digest of the
/// bytes, which depends on them alone.
#[verifier::external_body]
fn keccak256(data: &[u8]) -> (r: H256)
    ensures
        r.value() == keccak256_of(data@),
{
    let d = ethers_core::utils::keccak256(data);
    let (high, low) = d.split_at(16);
    H256 {
        high: u128::from_be_bytes(high.try_into().unwrap()),
        low: u128::from_be_bytes(low.try_into().unwrap()),
    }
}

/// The code hash that belongs to `code`: the empty hash for no code.
pub open spec fn code_hash_of(code: Seq<u8>) -> nat {
    if code.len() == 0 {
        spec_keccak_empty().value()
    } else {
        keccak256_of(code)
    }
}

/// An account as the executor sees it.
#[derive(Debug)]
pub struct AccountInfo {
    pub nonce: u64,
    pub balance: U256,
    pub code_hash: H256,
    pub code: Option<Vec<u8>>,
}

/// What can be observed of an account: absent code reads as empty code.
pub struct AccountView {
    pub nonce: u64,
    pub balance: nat,
    pub code_hash: nat,
    pub code: Seq<u8>,
}

impl View for AccountInfo {
    type V = AccountView;

    open spec fn view(&self) -> AccountView {
        AccountView {
            nonce: self.nonce,
            balance: self.balance.value(),
            code_hash: self.code_hash.value(),
            code: match self.code {
                Some(c) => c@,
                None => Seq::empty(),
            },
        }
    }
}

pub open spec fn empty_account_view() -> AccountView {
    AccountView { nonce: 0, balance: 0, code_hash: spec_keccak_empty().value(), code: Seq::empty() }
}

impl AccountInfo {
    /// The code hash agrees with the code.
    pub open spec fn is_consistent(&self) -> bool {
        self.code_hash.value() == code_hash_of(self@.code)
    }

    /// An account with no nonce, no balance and no code.
    pub fn empty() -> (r: AccountInfo)
        ensures
            r@ == empty_account_view(),
            r.is_consistent(),
    {
        AccountInfo { nonce: 0, balance: U256::zero(), code_hash: keccak_empty(), code: None }
    }

    /// An account holding `code`, with the hash that belongs to it.
    pub fn new(nonce: u64, balance: U256, code: Vec<u8>) -> (r: AccountInfo)
        ensures
            r@.nonce == nonce,
            r@.balance == balance.value(),
            r@.code == code@,
            r.is_consistent(),
    {
        let code_hash = hash_code(&code);
        AccountInfo { nonce, balance, code_hash, code: Some(code) }
    }

    /// A copy with the same observable contents.
    pub fn copied(&self) -> (r: AccountInfo)
        ensures
            r@ == self@,
            r.is_consistent() == self.is_consistent(),
    {
        let code = match &self.code {
            Some(c) => Some(c.clone()),
            None => None,
        };
        AccountInfo { nonce: self.nonce, balance: self.balance, code_hash: self.code_hash, code }
    }
}

/// The hash of `code`: the empty hash for no bytes, else its Keccak-256 digest.
pub fn hash_code(code: &[u8]) -> (r: H256)
    ensures
        r.value() == code_hash_of(code@),
{
    if code.len() == 0 {
        keccak_empty()
    } else {
        keccak256(code)
    }
}

/// The value of the last entry with key `k`.
pub open spec fn lookup<K, V>(entries: Seq<(K, V)>, k: K) -> Option<V>
    decreases entries.len(),
{
    if entries.len() == 0 {
        None
    } else if entries.last().0 == k {
        Some(entries.last().1)
    } else {
        lookup(entries.drop_last(), k)
    }
}

pub open spec fn unique_keys<K, V>(entries: Seq<(K, V)>) -> bool {
    forall|i: int, j: int|
        0 <= i < j < entries.len() ==> #[trigger] entries[i].0 != #[trigger] entries[j].0
}

pub proof fn lemma_lookup_at<K, V>(entries: Seq<(K, V)>, i: int)
    requires
        unique_keys(entries),
        0 <= i < entries.len(),
    ensures
        lookup(entries, entries[i].0) == Some(entries[i].1),
    decreases entries.len(),
{
    if i < entries.len() - 1 {
        assert(entries.last().0 != entries[i].0);
        assert(entries.drop_last()[i] == entries[i]);
        lemma_lookup_at(entries.drop_last(), i);
    }
}

pub proof fn lemma_lookup_absent<K, V>(entries: Seq<(K, V)>, k: K)
    requires
        forall|i: int| 0 <= i < entries.len() ==> (#[trigger] entries[i]).0 != k,
    ensures
        lookup(entries, k) is None,
    decreases entries.len(),
{
    if entries.len() > 0 {
        assert(entries.last() == entries[entries.len() - 1]);
        assert forall|i: int| 0 <= i < entries.drop_last().len() implies (
        #[trigger] entries.drop_last()[i]).0 != k by {
            assert(entries.drop_last()[i] == entries[i]);
        }
        lemma_lookup_absent(entries.drop_last(), k);
    }
}

/// Replacing the entry at `i`, whose key is `k`, under unique keys.
pub proof fn lemma_lookup_update<K, V>(entries: Seq<(K, V)>, i: int, k: K, v: V, x: K)
    requires
        unique_keys(entries),
        0 <= i < entries.len(),
        entries[i].0 == k,
    ensures
        lookup(entries.update(i, (k, v)), x) == if x == k {
            Some(v)
        } else {
            lookup(entries, x)
        },
    decreases entries.len(),
{
    let next = entries.update(i, (k, v));
    if i < entries.len() - 1 {
        assert(entries.last().0 != k);
        assert(next.last() == entries.last());
        assert(next.drop_last() =~= entries.drop_last().update(i, (k, v)));
        lemma_lookup_update(entries.drop_last(), i, k, v, x);
    } else {
        assert(next.drop_last() =~= entries.drop_last());
    }
}

/// Appending an entry whose key is new.
pub proof fn lemma_lookup_push<K, V>(entries: Seq<(K, V)>, k: K, v: V, x: K)
    ensures
        lookup(entries.push((k, v)), x) == if x == k {
            Some(v)
        } else {
            lookup(entries, x)
        },
{
    assert(entries.push((k, v)).drop_last() =~= entries);
}

/// The index of the entry for `a`, if there is one.
fn find_account(entries: &Vec<(Address, AccountInfo)>, a: Address) -> (r: Option<usize>)
    ensures
        match r {
            Some(i) => i < entries@.len() && entries@[i as int].0 == a,
            None => forall|i: int| 0 <= i < entries@.len() ==> (#[trigger] entries@[i]).0 != a,
        },
{
    let mut i: usize = 0;
    while i < entries.len()
        invariant
            i <= entries@.len(),
            forall|j: int| 0 <= j < i ==> (#[trigger] entries@[j]).0 != a,
        decreases entries@.len() - i,
    {
        if entries[i].0 == a {
            return Some(i);
        }
        i = i + 1;
    }
    None
}

/// The index of the entry for `key`, if there is one.
fn find_slot(entries: &Vec<((Address, U256), U256)>, key: (Address, U256)) -> (r: Option<usize>)
    ensures
        match r {
            Some(i) => i < entries@.len() && entries@[i as int].0 == key,
            None => forall|i: int| 0 <= i < entries@.len() ==> (#[trigger] entries@[i]).0 != key,
        },
{
    let mut i: usize = 0;
    while i < entries.len()
        invariant
            i <= entries@.len(),
            forall|j: int| 0 <= j < i ==> (#[trigger] entries@[j]).0 != key,
        decreases entries@.len() - i,
    {
        if entries[i].0.0 == key.0 && entries[i].0.1 == key.1 {
            return Some(i);
        }
        i = i + 1;
    }
    None
}

/// The writes of one layer.
#[derive(Debug)]
pub struct Layer {
    pub accounts: Vec<(Address, AccountInfo)>,
    pub storage: Vec<((Address, U256), U256)>,
}

impl Layer {
    /// Keys are unique; every account's code hash belongs to its code; every
    /// written slot's account has an entry in the same layer.
    pub open spec fn wf(&self) -> bool {
        &&& unique_keys(self.accounts@)
        &&& unique_keys(self.storage@)
        &&& forall|k: int|
            0 <= k < self.accounts@.len() ==> (#[trigger] self.accounts@[k]).1.is_consistent()
        &&& forall|j: int|
            0 <= j < self.storage@.len() ==> lookup(self.accounts@, (#[trigger] self.storage@[j]).0.0)
                is Some
    }

    pub open spec fn account(&self, a: Address) -> Option<AccountView> {
        match lookup(self.accounts@, a) {
            Some(info) => Some(info@),
            None => None,
        }
    }

    pub open spec fn slot(&self, a: Address, slot: U256) -> Option<U256> {
        lookup(self.storage@, (a, slot))
    }

    pub open spec fn is_empty(&self) -> bool {
        self.accounts@.len() == 0 && self.storage@.len() == 0
    }

    pub fn new() -> (r: Layer)
        ensures
            r.wf(),
            r.is_empty(),
    {
        Layer { accounts: Vec::new(), storage: Vec::new() }
    }

    /// Writes the account under `a`.
    pub fn put_account(&mut self, a: Address, info: AccountInfo)
        requires
            old(self).wf(),
            info.is_consistent(),
        ensures
            final(self).wf(),
            final(self).storage@ == old(self).storage@,
            forall|b: Address| #[trigger]
                lookup(final(self).accounts@, b) == if b == a {
                    Some(info)
                } else {
                    lookup(old(self).accounts@, b)
                },
    {
        let ghost before = self.accounts@;
        match find_account(&self.accounts, a) {
            Some(i) => {
                self.accounts.set(i, (a, info));
                proof {
                    let next = self.accounts@;
                    assert(next[i as int] == (a, info));
                    assert forall|x: int, y: int| 0 <= x < y < next.len() implies #[trigger] next[x].0
                        != #[trigger] next[y].0 by {
                        assert(before[x].0 != before[y].0);
                    }
                    assert forall|x| #[trigger] lookup(next, x) == if x == a {
                        Some(info)
                    } else {
                        lookup(before, x)
                    } by {
                        lemma_lookup_update(before, i as int, a, info, x);
                    }
                    assert forall|k: int| 0 <= k < next.len() implies (
                    #[trigger] next[k]).1.is_consistent() by {
                        if k != i {
                            assert(next[k] == before[k]);
                        }
                    }
                    assert forall|j: int| 0 <= j < self.storage@.len() implies lookup(
                        next,
                        (#[trigger] self.storage@[j]).0.0,
                    ) is Some by {
                        assert(lookup(before, self.storage@[j].0.0) is Some);
                    }
                }
            },
            None => {
                self.accounts.push((a, info));
                proof {
                    let next = self.accounts@;
                    let n = before.len() as int;
                    assert(next[n] == (a, info));
                    assert forall|x: int, y: int| 0 <= x < y < next.len() implies #[trigger] next[x].0
                        != #[trigger] next[y].0 by {
                        if y < n {
                            assert(before[x].0 != before[y].0);
                        } else {
                            assert(before[x].0 != a);
                        }
                    }
                    assert forall|x| #[trigger] lookup(next, x) == if x == a {
                        Some(info)
                    } else {
                        lookup(before, x)
                    } by {
                        lemma_lookup_push(before, a, info, x);
                    }
                    assert forall|k: int| 0 <= k < next.len() implies (
                    #[trigger] next[k]).1.is_consistent() by {
                        if k < n {
                            assert(next[k] == before[k]);
                        }
                    }
                    assert forall|j: int| 0 <= j < self.storage@.len() implies lookup(
                        next,
                        (#[trigger] self.storage@[j]).0.0,
                    ) is Some by {
                        assert(lookup(before, self.storage@[j].0.0) is Some);
                    }
                }
            },
        }
    }

    /// Writes `value` under the storage slot `slot` of `a`.
    pub fn put_slot(&mut self, a: Address, slot: U256, value: U256)
        requires
            old(self).wf(),
            lookup(old(self).accounts@, a) is Some,
        ensures
            final(self).wf(),
            final(self).accounts@ == old(self).accounts@,
            forall|k: (Address, U256)| #[trigger]
                lookup(final(self).storage@, k) == if k == (a, slot) {
                    Some(value)
                } else {
                    lookup(old(self).storage@, k)
                },
    {
        let ghost before = self.storage@;
        let key = (a, slot);
        match find_slot(&self.storage, key) {
            Some(i) => {
                self.storage.set(i, (key, value));
                proof {
                    let next = self.storage@;
                    assert(next[i as int] == (key, value));
                    assert forall|x: int, y: int| 0 <= x < y < next.len() implies #[trigger] next[x].0
                        != #[trigger] next[y].0 by {
                        assert(before[x].0 != before[y].0);
                    }
                    assert forall|x| #[trigger] lookup(next, x) == if x == key {
                        Some(value)
                    } else {
                        lookup(before, x)
                    } by {
                        lemma_lookup_update(before, i as int, key, value, x);
                    }
                    assert forall|j: int| 0 <= j < next.len() implies lookup(
                        self.accounts@,
                        (#[trigger] next[j]).0.0,
                    ) is Some by {
                        if j != i {
                            assert(next[j] == before[j]);
                        }
                    }
                }
            },
            None => {
                self.storage.push((key, value));
                proof {
                    let next = self.storage@;
                    let n = before.len() as int;
                    assert(next[n] == (key, value));
                    assert forall|x: int, y: int| 0 <= x < y < next.len() implies #[trigger] next[x].0
                        != #[trigger] next[y].0 by {
                        if y < n {
                            assert(before[x].0 != before[y].0);
                        } else {
                            assert(before[x].0 != key);
                        }
                    }
                    assert forall|x| #[trigger] lookup(next, x) == if x == key {
                        Some(value)
                    } else {
                        lookup(before, x)
                    } by {
                        lemma_lookup_push(before, key, value, x);
                    }
                    assert forall|j: int| 0 <= j < next.len() implies lookup(
                        self.accounts@,
                        (#[trigger] next[j]).0.0,
                    ) is Some by {
                        if j < n {
                            assert(next[j] == before[j]);
                        }
                    }
                }
            },
        }
    }
}


/// The code of the last account entry whose code hash is `h`.
pub open spec fn entries_code(entries: Seq<(Address, AccountInfo)>, h: H256) -> Option<Seq<u8>>
    decreases entries.len(),
{
    if entries.len() == 0 {
        None
    } else if entries.last().1.code_hash == h {
        Some(entries.last().1@.code)
    } else {
        entries_code(entries.drop_last(), h)
    }
}

/// The code with hash `h` that a read meets walking down `layers`.
pub open spec fn stack_code(layers: Seq<Layer>, h: H256) -> Option<Seq<u8>>
    decreases layers.len(),
{
    if layers.len() == 0 {
        None
    } else {
        match entries_code(layers.last().accounts@, h) {
            Some(c) => Some(c),
            None => stack_code(layers.drop_last(), h),
        }
    }
}

/// The account that a read of `a` meets walking down `layers`.
pub open spec fn stack_account(layers: Seq<Layer>, a: Address) -> Option<AccountView>
    decreases layers.len(),
{
    if layers.len() == 0 {
        None
    } else {
        match layers.last().account(a) {
            Some(v) => Some(v),
            None => stack_account(layers.drop_last(), a),
        }
    }
}

/// The storage value that a read of slot `slot` of `a` meets walking down `layers`.
pub open spec fn stack_slot(layers: Seq<Layer>, a: Address, slot: U256) -> Option<U256>
    decreases layers.len(),
{
    if layers.len() == 0 {
        None
    } else {
        match layers.last().slot(a, slot) {
            Some(v) => Some(v),
            None => stack_slot(layers.drop_last(), a, slot),
        }
    }
}

/// How many of the most recent blocks have a readable hash.
pub const BLOCK_HASH_WINDOW: usize = 256;

/// A layered account and storage store with snapshots.
#[derive(Debug)]
pub struct StateDb {
    /// The layers, base first.
    pub layers: Vec<Layer>,
    /// The hash of each block, by number.
    pub block_hashes: Vec<H256>,
}

/// One account of a dump: its fields and its storage slots.
#[derive(Debug)]
pub struct SerializableAccountRecord {
    pub nonce: u64,
    pub balance: U256,
    pub code: Vec<u8>,
    pub storage: Vec<(U256, U256)>,
}

/// The accounts of the base layer, each with its storage.
#[derive(Debug)]
pub struct SerializableState {
    pub accounts: Vec<(Address, SerializableAccountRecord)>,
}

/// The slots of `a` among storage entries, in their order.
pub open spec fn slots_of(entries: Seq<((Address, U256), U256)>, a: Address) -> Seq<(U256, U256)>
    decreases entries.len(),
{
    if entries.len() == 0 {
        Seq::empty()
    } else {
        let rest = slots_of(entries.drop_last(), a);
        if entries.last().0.0 == a {
            rest.push((entries.last().0.1, entries.last().1))
        } else {
            rest
        }
    }
}

/// `entry` is the dump of the account entry `acct`, with the storage entries
/// of its layer.
pub open spec fn record_of(
    entry: (Address, SerializableAccountRecord),
    acct: (Address, AccountInfo),
    storage: Seq<((Address, U256), U256)>,
) -> bool {
    &&& entry.0 == acct.0
    &&& entry.1.nonce == acct.1.nonce
    &&& entry.1.balance == acct.1.balance
    &&& entry.1.code@ == acct.1@.code
    &&& entry.1.storage@ == slots_of(storage, acct.0)
}

/// The account that loading `rec` writes.
pub open spec fn record_view(rec: SerializableAccountRecord) -> AccountView {
    AccountView {
        nonce: rec.nonce,
        balance: rec.balance.value(),
        code_hash: code_hash_of(rec.code@),
        code: rec.code@,
    }
}

/// The account that loading `recs` writes under `a`, if any.
pub open spec fn loaded_account(recs: Seq<(Address, SerializableAccountRecord)>, a: Address) -> Option<
    AccountView,
> {
    match lookup(recs, a) {
        Some(rec) => Some(record_view(rec)),
        None => None,
    }
}

/// The value that loading `recs` writes under slot `slot` of `a`, if any:
/// later records and later slots win.
pub open spec fn loaded_slot(
    recs: Seq<(Address, SerializableAccountRecord)>,
    a: Address,
    slot: U256,
) -> Option<U256>
    decreases recs.len(),
{
    if recs.len() == 0 {
        None
    } else if recs.last().0 == a && lookup(recs.last().1.storage@, slot) is Some {
        lookup(recs.last().1.storage@, slot)
    } else {
        loaded_slot(recs.drop_last(), a, slot)
    }
}

pub proof fn lemma_stack_top_write(layers: Seq<Layer>, top: Layer, a: Address, s: U256)
    requires
        layers.len() >= 1,
    ensures
        top.account(a) == layers.last().account(a) ==> stack_account(
            layers.drop_last().push(top),
            a,
        ) == stack_account(layers, a),
        top.slot(a, s) == layers.last().slot(a, s) ==> stack_slot(layers.drop_last().push(top), a, s)
            == stack_slot(layers, a, s),
        top.account(a) matches Some(v) ==> stack_account(layers.drop_last().push(top), a) == Some(
            v,
        ),
        top.slot(a, s) matches Some(v) ==> stack_slot(layers.drop_last().push(top), a, s) == Some(
            v,
        ),
{
    let next = layers.drop_last().push(top);
    assert(next.drop_last() =~= layers.drop_last());
}

/// Two stacks that differ at most in their base layer, where the base layers
/// read alike, read alike.
pub proof fn lemma_stack_same_base(l1: Seq<Layer>, l2: Seq<Layer>, a: Address, s: U256)
    requires
        l1.len() == l2.len(),
        l1.len() >= 1,
        l1.skip(1) == l2.skip(1),
        l1[0].account(a) == l2[0].account(a),
        l1[0].slot(a, s) == l2[0].slot(a, s),
    ensures
        stack_account(l1, a) == stack_account(l2, a),
        stack_slot(l1, a, s) == stack_slot(l2, a, s),
    decreases l1.len(),
{
    if l1.len() == 1 {
        assert(l1.drop_last() =~= Seq::<Layer>::empty());
        assert(l2.drop_last() =~= Seq::<Layer>::empty());
    } else {
        assert(l1.last() == l1.skip(1)[l1.len() - 2]);
        assert(l2.last() == l2.skip(1)[l2.len() - 2]);
        assert(l1.drop_last().skip(1) =~= l1.skip(1).drop_last());
        assert(l2.drop_last().skip(1) =~= l2.skip(1).drop_last());
        lemma_stack_same_base(l1.drop_last(), l2.drop_last(), a, s);
    }
}

/// Above an empty top layer, reads meet what they meet without it.
pub proof fn lemma_stack_empty_top(layers: Seq<Layer>, a: Address, s: U256)
    requires
        layers.len() >= 1,
        layers.last().is_empty(),
    ensures
        stack_account(layers, a) == stack_account(layers.drop_last(), a),
        stack_slot(layers, a, s) == stack_slot(layers.drop_last(), a, s),
{
}

impl StateDb {
    pub open spec fn wf(&self) -> bool {
        &&& self.layers@.len() >= 1
        &&& forall|i: int| 0 <= i < self.layers@.len() ==> (#[trigger] self.layers@[i]).wf()
    }

    /// What a read of `a` returns.
    pub open spec fn account(&self, a: Address) -> AccountView {
        match stack_account(self.layers@, a) {
            Some(v) => v,
            None => empty_account_view(),
        }
    }

    /// What a read of slot `slot` of `a` returns.
    pub open spec fn storage_value(&self, a: Address, slot: U256) -> nat {
        match stack_slot(self.layers@, a, slot) {
            Some(v) => v.value(),
            None => 0,
        }
    }

    /// No read can tell the two states apart.
    pub open spec fn observably_equal(&self, other: &StateDb) -> bool {
        &&& forall|a: Address| #[trigger] self.account(a) == other.account(a)
        &&& forall|a: Address, s: U256| #[trigger]
            self.storage_value(a, s) == other.storage_value(a, s)
    }

    /// Only the top layer may differ from `old`.
    pub open spec fn keeps_lower_layers(&self, old: &StateDb) -> bool {
        &&& self.layers@.len() == old.layers@.len()
        &&& self.layers@.drop_last() == old.layers@.drop_last()
        &&& self.block_hashes@ == old.block_hashes@
    }

    /// `st` holds the base layer's accounts, in order, each with its slots.
    pub open spec fn is_dump(&self, st: SerializableState) -> bool {
        let base = self.layers@[0];
        &&& st.accounts@.len() == base.accounts@.len()
        &&& forall|k: int|
            0 <= k < st.accounts@.len() ==> record_of(
                #[trigger] st.accounts@[k],
                base.accounts@[k],
                base.storage@,
            )
    }

    /// `self` is `old` after loading `st` into the base layer.
    pub open spec fn is_load(&self, old: &StateDb, st: SerializableState) -> bool {
        &&& self.wf()
        &&& self.layers@.len() == old.layers@.len()
        &&& self.layers@.skip(1) == old.layers@.skip(1)
        &&& self.block_hashes@ == old.block_hashes@
        &&& forall|a: Address| #[trigger]
            self.layers@[0].account(a) == match loaded_account(st.accounts@, a) {
                Some(v) => Some(v),
                None => old.layers@[0].account(a),
            }
        &&& forall|a: Address, s: U256| #[trigger]
            self.layers@[0].slot(a, s) == match loaded_slot(st.accounts@, a, s) {
                Some(v) => Some(v),
                None => old.layers@[0].slot(a, s),
            }
    }

    /// An empty store: one empty base layer and no blocks.
    pub fn new() -> (r: StateDb)
        ensures
            r.wf(),
            r.layers@.len() == 1,
            r.layers@[0].is_empty(),
            r.block_hashes@.len() == 0,
            forall|a: Address| #[trigger] r.account(a) == empty_account_view(),
            forall|a: Address, s: U256| #[trigger] r.storage_value(a, s) == 0,
    {
        let mut layers = Vec::new();
        layers.push(Layer::new());
        let r = StateDb { layers, block_hashes: Vec::new() };
        proof {
            assert forall|a: Address| #[trigger] r.account(a) == empty_account_view() by {
                assert(r.layers@.drop_last() =~= Seq::<Layer>::empty());
                assert(r.layers@.last().account(a) is None);
                assert(stack_account(Seq::<Layer>::empty(), a) is None);
            }
            assert forall|a: Address, s: U256| #[trigger] r.storage_value(a, s) == 0 by {
                assert(r.layers@.drop_last() =~= Seq::<Layer>::empty());
                assert(r.layers@.last().slot(a, s) is None);
                assert(stack_slot(Seq::<Layer>::empty(), a, s) is None);
            }
        }
        r
    }

    /// The account at `a`; an absent account reads as empty.
    pub fn basic(&self, a: Address) -> (r: AccountInfo)
        requires
            self.wf(),
        ensures
            r@ == self.account(a),
            r.is_consistent(),
    {
        let mut k = self.layers.len();
        assert(self.layers@.take(k as int) =~= self.layers@);
        while k > 0
            invariant
                self.wf(),
                k <= self.layers@.len(),
                stack_account(self.layers@, a) == stack_account(self.layers@.take(k as int), a),
            decreases k,
        {
            let layer = &self.layers[k - 1];
            let ghost prefix = self.layers@.take(k as int);
            assert(prefix.last() == self.layers@[k - 1]);
            assert(prefix.drop_last() =~= self.layers@.take(k - 1));
            match find_account(&layer.accounts, a) {
                Some(i) => {
                    proof {
                        lemma_lookup_at(layer.accounts@, i as int);
                        assert(layer.wf());
                        assert(layer.accounts@[i as int].1.is_consistent());
                    }
                    return layer.accounts[i].1.copied();
                },
                None => {
                    proof {
                        lemma_lookup_absent(layer.accounts@, a);
                    }
                },
            }
            k = k - 1;
        }
        assert(self.layers@.take(0) =~= Seq::<Layer>::empty());
        AccountInfo::empty()
    }

    /// The value in slot `slot` of `a`; an unwritten slot reads as zero.
    pub fn storage(&self, a: Address, slot: U256) -> (r: U256)
        requires
            self.wf(),
        ensures
            r.value() == self.storage_value(a, slot),
    {
        let mut k = self.layers.len();
        assert(self.layers@.take(k as int) =~= self.layers@);
        while k > 0
            invariant
                self.wf(),
                k <= self.layers@.len(),
                stack_slot(self.layers@, a, slot) == stack_slot(self.layers@.take(k as int), a, slot),
            decreases k,
        {
            let layer = &self.layers[k - 1];
            let ghost prefix = self.layers@.take(k as int);
            assert(prefix.last() == self.layers@[k - 1]);
            assert(prefix.drop_last() =~= self.layers@.take(k - 1));
            match find_slot(&layer.storage, (a, slot)) {
                Some(i) => {
                    proof {
                        lemma_lookup_at(layer.storage@, i as int);
                    }
                    return layer.storage[i].1;
                },
                None => {
                    proof {
                        lemma_lookup_absent(layer.storage@, (a, slot));
                    }
                },
            }
            k = k - 1;
        }
        assert(self.layers@.take(0) =~= Seq::<Layer>::empty());
        U256::zero()
    }

    /// The code whose hash is `h`, as held by an account in the store; empty
    /// where no account holds it.
    pub fn code_by_hash(&self, h: H256) -> (r: Vec<u8>)
        ensures
            r@ == match stack_code(self.layers@, h) {
                Some(c) => c,
                None => Seq::empty(),
            },
    {
        let mut k = self.layers.len();
        assert(self.layers@.take(k as int) =~= self.layers@);
        while k > 0
            invariant
                k <= self.layers@.len(),
                stack_code(self.layers@, h) == stack_code(self.layers@.take(k as int), h),
            decreases k,
        {
            let layer = &self.layers[k - 1];
            let ghost prefix = self.layers@.take(k as int);
            assert(prefix.last() == self.layers@[k - 1]);
            assert(prefix.drop_last() =~= self.layers@.take(k - 1));
            let mut i = layer.accounts.len();
            assert(layer.accounts@.take(i as int) =~= layer.accounts@);
            while i > 0
                invariant
                    i <= layer.accounts@.len(),
                    0 < k <= self.layers@.len(),
                    prefix == self.layers@.take(k as int),
                    prefix.last() == *layer,
                    stack_code(self.layers@, h) == stack_code(prefix, h),
                    entries_code(layer.accounts@, h) == entries_code(layer.accounts@.take(i as int), h),
                decreases i,
            {
                let ghost t = layer.accounts@.take(i as int);
                assert(t.last() == layer.accounts@[i - 1]);
                assert(t.drop_last() =~= layer.accounts@.take(i - 1));
                let info = &layer.accounts[i - 1].1;
                if info.code_hash == h {
                    return match &info.code {
                        Some(c) => c.clone(),
                        None => Vec::new(),
                    };
                }
                i = i - 1;
            }
            assert(layer.accounts@.take(0) =~= Seq::<(Address, AccountInfo)>::empty());
            k = k - 1;
        }
        assert(self.layers@.take(0) =~= Seq::<Layer>::empty());
        Vec::new()
    }

    /// Writes the account at `a` on the top layer, with the code hash that
    /// belongs to its code.
    pub fn insert_account(&mut self, a: Address, info: AccountInfo)
        requires
            old(self).wf(),
        ensures
            final(self).wf(),
            final(self).keeps_lower_layers(old(self)),
            forall|b: Address| #[trigger]
                final(self).account(b) == if b == a {
                    AccountView { code_hash: code_hash_of(info@.code), ..info@ }
                } else {
                    old(self).account(b)
                },
            forall|b: Address, s: U256| #[trigger]
                final(self).storage_value(b, s) == old(self).storage_value(b, s),
    {
        let ghost before = self.layers@;
        let ghost v = AccountView { code_hash: code_hash_of(info@.code), ..info@ };
        let mut info = info;
        info.code_hash = match &info.code {
            Some(c) => hash_code(c.as_slice()),
            None => keccak_empty(),
        };
        assert(info@ == v);
        let mut top = self.layers.pop().unwrap();
        assert(top == before.last());
        top.put_account(a, info);
        self.layers.push(top);
        proof {
            assert(self.layers@ == before.drop_last().push(top));
            assert(self.layers@.drop_last() =~= before.drop_last());
            assert forall|i: int| 0 <= i < self.layers@.len() implies (
            #[trigger] self.layers@[i]).wf() by {
                if i < before.len() - 1 {
                    assert(self.layers@[i] == before[i]);
                }
            }
            assert forall|b: Address| #[trigger]
                self.account(b) == if b == a {
                    v
                } else {
                    old(self).account(b)
                } by {
                lemma_stack_top_write(before, top, b, U256 { high: 0, low: 0 });
            }
            assert forall|b: Address, s: U256| #[trigger]
                self.storage_value(b, s) == old(self).storage_value(b, s) by {
                lemma_stack_top_write(before, top, b, s);
            }
        }
    }

    /// Writes `value` into slot `slot` of `a` on the top layer.
    pub fn set_storage_at(&mut self, a: Address, slot: U256, value: U256)
        requires
            old(self).wf(),
        ensures
            final(self).wf(),
            final(self).keeps_lower_layers(old(self)),
            forall|b: Address| #[trigger] final(self).account(b) == old(self).account(b),
            forall|b: Address, s: U256| #[trigger]
                final(self).storage_value(b, s) == if b == a && s == slot {
                    value.value()
                } else {
                    old(self).storage_value(b, s)
                },
    {
        let ghost before = self.layers@;
        let current = self.basic(a);
        let ghost v = current@;
        let mut top = self.layers.pop().unwrap();
        assert(top == before.last());
        assert(top.wf());
        match find_account(&top.accounts, a) {
            Some(i) => {
                proof {
                    lemma_lookup_at(top.accounts@, i as int);
                }
            },
            None => {
                proof {
                    lemma_lookup_absent(top.accounts@, a);
                    assert(stack_account(before, a) == stack_account(before.drop_last(), a));
                }
                top.put_account(a, current);
            },
        }
        top.put_slot(a, slot, value);
        self.layers.push(top);
        proof {
            assert(self.layers@ == before.drop_last().push(top));
            assert(self.layers@.drop_last() =~= before.drop_last());
            assert forall|i: int| 0 <= i < self.layers@.len() implies (
            #[trigger] self.layers@[i]).wf() by {
                if i < before.len() - 1 {
                    assert(self.layers@[i] == before[i]);
                }
            }
            assert forall|b: Address| #[trigger] self.account(b) == old(self).account(b) by {
                lemma_stack_top_write(before, top, b, slot);
                if b == a && before.last().account(a) is None {
                    assert(top.account(a) == Some(v));
                }
            }
            assert forall|b: Address, s: U256| #[trigger]
                self.storage_value(b, s) == if b == a && s == slot {
                    value.value()
                } else {
                    old(self).storage_value(b, s)
                } by {
                lemma_stack_top_write(before, top, b, s);
            }
        }
    }

    /// Sets the nonce of `a`, keeping the rest of the account.
    pub fn set_nonce(&mut self, a: Address, nonce: u64)
        requires
            old(self).wf(),
        ensures
            final(self).wf(),
            final(self).keeps_lower_layers(old(self)),
            forall|b: Address| #[trigger]
                final(self).account(b) == if b == a {
                    AccountView { nonce, ..old(self).account(a) }
                } else {
                    old(self).account(b)
                },
            forall|b: Address, s: U256| #[trigger]
                final(self).storage_value(b, s) == old(self).storage_value(b, s),
    {
        let mut info = self.basic(a);
        info.nonce = nonce;
        self.insert_account(a, info);
    }

    /// Sets the balance of `a`, keeping the rest of the account.
    pub fn set_balance(&mut self, a: Address, balance: U256)
        requires
            old(self).wf(),
        ensures
            final(self).wf(),
            final(self).keeps_lower_layers(old(self)),
            forall|b: Address| #[trigger]
                final(self).account(b) == if b == a {
                    AccountView { balance: balance.value(), ..old(self).account(a) }
                } else {
                    old(self).account(b)
                },
            forall|b: Address, s: U256| #[trigger]
                final(self).storage_value(b, s) == old(self).storage_value(b, s),
    {
        let mut info = self.basic(a);
        info.balance = balance;
        self.insert_account(a, info);
    }

    /// Sets the code of `a` and the hash that belongs to it.
    pub fn set_code(&mut self, a: Address, code: Vec<u8>)
        requires
            old(self).wf(),
        ensures
            final(self).wf(),
            final(self).keeps_lower_layers(old(self)),
            forall|b: Address| #[trigger]
                final(self).account(b) == if b == a {
                    AccountView { code: code@, code_hash: code_hash_of(code@), ..old(self).account(a) }
                } else {
                    old(self).account(b)
                },
            forall|b: Address, s: U256| #[trigger]
                final(self).storage_value(b, s) == old(self).storage_value(b, s),
    {
        let mut info = self.basic(a);
        info.code_hash = hash_code(code.as_slice());
        info.code = Some(code);
        self.insert_account(a, info);
    }

    /// Pushes a new empty layer and returns its id.
    pub fn snapshot(&mut self) -> (r: U256)
        requires
            old(self).wf(),
        ensures
            final(self).wf(),
            r.value() == old(self).layers@.len(),
            final(self).layers@.len() == old(self).layers@.len() + 1,
            final(self).layers@.drop_last() == old(self).layers@,
            final(self).layers@.last().is_empty(),
            final(self).block_hashes@ == old(self).block_hashes@,
            final(self).observably_equal(old(self)),
    {
        let id = self.layers.len();
        self.layers.push(Layer::new());
        proof {
            assert(self.layers@.drop_last() =~= old(self).layers@);
            assert forall|i: int| 0 <= i < self.layers@.len() implies (
            #[trigger] self.layers@[i]).wf() by {
                if i < old(self).layers@.len() {
                    assert(self.layers@[i] == old(self).layers@[i]);
                }
            }
            assert forall|a: Address| #[trigger] self.account(a) == old(self).account(a) by {
                lemma_stack_empty_top(self.layers@, a, U256 { high: 0, low: 0 });
            }
            assert forall|a: Address, s: U256| #[trigger]
                self.storage_value(a, s) == old(self).storage_value(a, s) by {
                lemma_stack_empty_top(self.layers@, a, s);
            }
        }
        U256::from_u64(id as u64)
    }

    /// Drops the layer of snapshot `id` and all above it. Returns whether
    /// `id` named a live snapshot; where it did not, nothing changes.
    pub fn revert(&mut self, id: U256) -> (r: bool)
        requires
            old(self).wf(),
        ensures
            final(self).wf(),
            r == (1 <= id.value() < old(self).layers@.len()),
            r ==> final(self).layers@ == old(self).layers@.take(id.value() as int),
            !r ==> final(self).layers@ == old(self).layers@,
            final(self).block_hashes@ == old(self).block_hashes@,
    {
        let len = self.layers.len();
        if id.high == 0 && 1 <= id.low && id.low < len as u128 {
            self.layers.truncate(id.low as usize);
            assert(id.value() == id.low);
            assert(self.layers@ =~= old(self).layers@.take(id.value() as int));
            true
        } else {
            proof {
                if id.high > 0 {
                    assert(id.high as nat * pow2_128() >= pow2_128()) by (nonlinear_arith)
                        requires
                            id.high > 0,
                    ;
                    assert(len as nat <= usize::MAX);
                } else {
                    assert(id.value() == id.low);
                }
            }
            false
        }
    }

    /// Records the hash of the next block.
    pub fn push_block_hash(&mut self, h: H256)
        ensures
            final(self).block_hashes@ == old(self).block_hashes@.push(h),
            final(self).layers@ == old(self).layers@,
    {
        self.block_hashes.push(h);
    }

    /// The hash of block `number` where it is one of the most recent 256
    /// blocks; zero for older or unknown blocks.
    pub fn block_hash(&self, number: U256) -> (r: H256)
        ensures
            (number.value() < self.block_hashes@.len() && self.block_hashes@.len()
                - number.value() <= BLOCK_HASH_WINDOW) ==> r == self.block_hashes@[number.value() as int],
            !(number.value() < self.block_hashes@.len() && self.block_hashes@.len()
                - number.value() <= BLOCK_HASH_WINDOW) ==> r.value() == 0,
    {
        let len = self.block_hashes.len();
        if number.high == 0 && number.low < len as u128 && len - (number.low as usize)
            <= BLOCK_HASH_WINDOW {
            self.block_hashes[number.low as usize]
        } else {
            proof {
                if number.high > 0 {
                    assert(number.high as nat * pow2_128() >= pow2_128()) by (nonlinear_arith)
                        requires
                            number.high > 0,
                    ;
                }
            }
            H256::zero()
        }
    }

    /// The base layer's accounts, each with its storage slots.
    pub fn dump_state(&self) -> (r: SerializableState)
        requires
            self.wf(),
        ensures
            self.is_dump(r),
    {
        let base = &self.layers[0];
        let mut accounts: Vec<(Address, SerializableAccountRecord)> = Vec::new();
        let mut k: usize = 0;
        while k < base.accounts.len()
            invariant
                *base == self.layers@[0],
                k <= base.accounts@.len(),
                accounts@.len() == k,
                forall|j: int|
                    0 <= j < k ==> record_of(
                        #[trigger] accounts@[j],
                        base.accounts@[j],
                        base.storage@,
                    ),
            decreases base.accounts@.len() - k,
        {
            let a = base.accounts[k].0;
            let info = &base.accounts[k].1;
            let code = match &info.code {
                Some(c) => c.clone(),
                None => Vec::new(),
            };
            let storage = slots_for(&base.storage, a);
            accounts.push(
                (a, SerializableAccountRecord { nonce: info.nonce, balance: info.balance, code, storage }),
            );
            k = k + 1;
        }
        SerializableState { accounts }
    }

    /// Writes each record of `st` into the base layer: the account, with the
    /// hash of its code, and each of its slots. Layers above stay as they are.
    pub fn load_state(&mut self, st: &SerializableState) -> (r: bool)
        requires
            old(self).wf(),
        ensures
            r,
            final(self).is_load(old(self), *st),
    {
        let ghost old_base = self.layers@[0];
        let ghost recs = st.accounts@;
        let mut base = self.layers.remove(0);
        let mut k: usize = 0;
        while k < st.accounts.len()
            invariant
                base.wf(),
                k <= recs.len(),
                recs == st.accounts@,
                self.layers@ == old(self).layers@.remove(0),
                self.block_hashes@ == old(self).block_hashes@,
                forall|a: Address| #[trigger]
                    base.account(a) == match loaded_account(recs.take(k as int), a) {
                        Some(v) => Some(v),
                        None => old_base.account(a),
                    },
                forall|a: Address, s: U256| #[trigger]
                    base.slot(a, s) == match loaded_slot(recs.take(k as int), a, s) {
                        Some(v) => Some(v),
                        None => old_base.slot(a, s),
                    },
            decreases recs.len() - k,
        {
            let a = st.accounts[k].0;
            let rec = &st.accounts[k].1;
            let ghost before = base;
            let ghost done = recs.take(k as int);
            let ghost next = recs.take(k + 1);
            assert(next.drop_last() =~= done);
            assert(next.last() == recs[k as int]);
            let code_hash = hash_code(rec.code.as_slice());
            let code = if rec.code.len() == 0 {
                None
            } else {
                Some(rec.code.clone())
            };
            let info = AccountInfo { nonce: rec.nonce, balance: rec.balance, code_hash, code };
            assert(info@.code =~= rec.code@);
            assert(info@ == record_view(*rec));
            assert(info.is_consistent());
            base.put_account(a, info);
            assert forall|b: Address| #[trigger]
                base.account(b) == if b == a {
                    Some(record_view(*rec))
                } else {
                    before.account(b)
                } by {
                assert(lookup(base.accounts@, b) == if b == a {
                    Some(info)
                } else {
                    lookup(before.accounts@, b)
                });
            }
            assert(rec.storage@.take(0) =~= Seq::<(U256, U256)>::empty());
            let mut j: usize = 0;
            while j < rec.storage.len()
                invariant
                    base.wf(),
                    lookup(base.accounts@, a) is Some,
                    j <= rec.storage@.len(),
                    forall|b: Address| #[trigger]
                        base.account(b) == if b == a {
                            Some(record_view(*rec))
                        } else {
                            before.account(b)
                        },
                    forall|b: Address, s: U256| #[trigger]
                        base.slot(b, s) == if b == a && lookup(rec.storage@.take(j as int), s) is Some {
                            lookup(rec.storage@.take(j as int), s)
                        } else {
                            before.slot(b, s)
                        },
                decreases rec.storage@.len() - j,
            {
                let ghost prev = base;
                base.put_slot(a, rec.storage[j].0, rec.storage[j].1);
                proof {
                    let t = rec.storage@.take(j + 1);
                    assert(t.drop_last() =~= rec.storage@.take(j as int));
                    assert(t.last() == rec.storage@[j as int]);
                    assert forall|b: Address| #[trigger] base.account(b) == prev.account(b) by {}
                    assert forall|b: Address, s: U256| #[trigger]
                        base.slot(b, s) == if b == a && lookup(t, s) is Some {
                            lookup(t, s)
                        } else {
                            before.slot(b, s)
                        } by {
                        assert(lookup(base.storage@, (b, s)) == if (b, s) == (a, rec.storage@[j as int].0) {
                            Some(rec.storage@[j as int].1)
                        } else {
                            lookup(prev.storage@, (b, s))
                        });
                        assert(prev.slot(b, s) == if b == a && lookup(rec.storage@.take(j as int), s) is Some {
                            lookup(rec.storage@.take(j as int), s)
                        } else {
                            before.slot(b, s)
                        });
                        assert(lookup(t, s) == if t.last().0 == s {
                            Some(t.last().1)
                        } else {
                            lookup(t.drop_last(), s)
                        });
                    }
                }
                j = j + 1;
            }
            proof {
                assert(rec.storage@.take(j as int) =~= rec.storage@);
                assert forall|b: Address| #[trigger]
                    base.account(b) == match loaded_account(next, b) {
                        Some(v) => Some(v),
                        None => old_base.account(b),
                    } by {
                    assert(before.account(b) == match loaded_account(done, b) {
                        Some(v) => Some(v),
                        None => old_base.account(b),
                    });
                }
                assert forall|b: Address, s: U256| #[trigger]
                    base.slot(b, s) == match loaded_slot(next, b, s) {
                        Some(v) => Some(v),
                        None => old_base.slot(b, s),
                    } by {
                    assert(before.slot(b, s) == match loaded_slot(done, b, s) {
                        Some(v) => Some(v),
                        None => old_base.slot(b, s),
                    });
                }
            }
            k = k + 1;
        }
        assert(recs.take(k as int) =~= recs);
        self.layers.insert(0, base);
        proof {
            assert(self.layers@.skip(1) =~= old(self).layers@.skip(1));
            assert forall|i: int| 0 <= i < self.layers@.len() implies (
            #[trigger] self.layers@[i]).wf() by {
                if i > 0 {
                    assert(self.layers@[i] == old(self).layers@[i]);
                }
            }
        }
        true
    }
}

/// The slots of `a` among `entries`, in their order.
fn slots_for(entries: &Vec<((Address, U256), U256)>, a: Address) -> (r: Vec<(U256, U256)>)
    ensures
        r@ == slots_of(entries@, a),
{
    let mut r: Vec<(U256, U256)> = Vec::new();
    let mut m: usize = 0;
    while m < entries.len()
        invariant
            m <= entries@.len(),
            r@ == slots_of(entries@.take(m as int), a),
        decreases entries@.len() - m,
    {
        let ghost t = entries@.take(m + 1);
        assert(t.drop_last() =~= entries@.take(m as int));
        assert(t.last() == entries@[m as int]);
        if entries[m].0.0 == a {
            r.push((entries[m].0.1, entries[m].1));
        }
        m = m + 1;
    }
    assert(entries@.take(m as int) =~= entries@);
    r
}

/// Reverting to a snapshot restores what could be read when it was taken.
///
/// `taken` is the state just after `snapshot` returned `id`; `later` is any
/// state reached from it by writes, snapshots and reverts to later snapshots,
/// all of which keep the layers below `id`; `reverted` is `later` after
/// `revert(id)`.
pub proof fn lemma_revert_restores_snapshot(
    taken: StateDb,
    later: StateDb,
    reverted: StateDb,
    id: nat,
)
    requires
        taken.wf(),
        id >= 1,
        taken.layers@.len() == id + 1,
        taken.layers@.last().is_empty(),
        later.layers@.len() > id,
        later.layers@.take(id as int) == taken.layers@.take(id as int),
        reverted.layers@ == later.layers@.take(id as int),
    ensures
        reverted.observably_equal(&taken),
{
    assert(reverted.layers@ =~= taken.layers@.drop_last());
    assert forall|a: Address| #[trigger] reverted.account(a) == taken.account(a) by {
        lemma_stack_empty_top(taken.layers@, a, U256 { high: 0, low: 0 });
    }
    assert forall|a: Address, s: U256| #[trigger]
        reverted.storage_value(a, s) == taken.storage_value(a, s) by {
        lemma_stack_empty_top(taken.layers@, a, s);
    }
}

/// Every write, snapshot, and revert to a snapshot above `id` keeps the layers
/// below `id`, so a snapshot `id` stays revertible to what it saw.
pub proof fn lemma_operations_keep_lower_layers(before: StateDb, after: StateDb, id: nat)
    requires
        before.layers@.len() > id,
        after.keeps_lower_layers(&before) || (after.layers@.len() == before.layers@.len() + 1
            && after.layers@.drop_last() == before.layers@) || (
        id < after.layers@.len() <= before.layers@.len() && after.layers@ == before.layers@.take(
            after.layers@.len() as int,
        )),
    ensures
        after.layers@.len() > id,
        after.layers@.take(id as int) == before.layers@.take(id as int),
{
    if after.keeps_lower_layers(&before) {
        assert(after.layers@.take(id as int) =~= after.layers@.drop_last().take(id as int));
        assert(before.layers@.take(id as int) =~= before.layers@.drop_last().take(id as int));
    } else if after.layers@.len() == before.layers@.len() + 1 && after.layers@.drop_last()
        == before.layers@ {
        assert(after.layers@.take(id as int) =~= after.layers@.drop_last().take(id as int));
    } else {
        assert(after.layers@.take(id as int) =~= before.layers@.take(id as int)) by {
            assert forall|i: int| 0 <= i < id implies after.layers@[i] == before.layers@[i] by {
                assert(after.layers@[i] == before.layers@.take(after.layers@.len() as int)[i]);
            }
        }
    }
}

/// `after` follows `before` by one write, one snapshot, or one revert to a
/// snapshot above `id`: what the contracts of `insert_account`, the `set_`
/// methods, `snapshot` and `revert` promise.
pub open spec fn is_step_above(before: StateDb, after: StateDb, id: nat) -> bool {
    ||| after.keeps_lower_layers(&before)
    ||| (after.layers@.len() == before.layers@.len() + 1 && after.layers@.drop_last()
        == before.layers@)
    ||| (id < after.layers@.len() < before.layers@.len() && after.layers@ == before.layers@.take(
        after.layers@.len() as int,
    ))
}

/// Snapshot revert over any run: from the state in which `snapshot` returned
/// `id`, through any sequence of writes, snapshots and reverts to later
/// snapshots, reverting to `id` yields a state that reads as the one in which
/// the snapshot was taken.
pub proof fn lemma_revert_after_any_run(run: Seq<StateDb>, reverted: StateDb, id: nat)
    requires
        run.len() >= 1,
        run[0].wf(),
        id >= 1,
        run[0].layers@.len() == id + 1,
        run[0].layers@.last().is_empty(),
        forall|i: int| 0 <= i < run.len() - 1 ==> #[trigger] is_step_above(run[i], run[i + 1], id),
        reverted.layers@ == run.last().layers@.take(id as int),
    ensures
        reverted.observably_equal(&run[0]),
{
    lemma_run_keeps_lower_layers(run, id, run.len() - 1);
    lemma_revert_restores_snapshot(run[0], run.last(), reverted, id);
}

proof fn lemma_run_keeps_lower_layers(run: Seq<StateDb>, id: nat, n: int)
    requires
        0 <= n < run.len(),
        run[0].layers@.len() > id,
        forall|i: int| 0 <= i < run.len() - 1 ==> #[trigger] is_step_above(run[i], run[i + 1], id),
    ensures
        run[n].layers@.len() > id,
        run[n].layers@.take(id as int) == run[0].layers@.take(id as int),
    decreases n,
{
    if n > 0 {
        lemma_run_keeps_lower_layers(run, id, n - 1);
        let i = n - 1;
        assert(is_step_above(run[i], run[i + 1], id));
        assert(i + 1 == n);
        lemma_operations_keep_lower_layers(run[i], run[n], id);
    }
}

proof fn lemma_slots_of_lookup(entries: Seq<((Address, U256), U256)>, a: Address, s: U256)
    ensures
        lookup(slots_of(entries, a), s) == lookup(entries, (a, s)),
    decreases entries.len(),
{
    if entries.len() > 0 {
        let last = entries.last();
        lemma_slots_of_lookup(entries.drop_last(), a, s);
        if last.0.0 == a {
            let rest = slots_of(entries.drop_last(), a);
            assert(rest.push((last.0.1, last.1)).drop_last() =~= rest);
            assert((last.0 == (a, s)) == (last.0.1 == s));
        } else {
            assert(last.0 != (a, s));
        }
    }
}

proof fn lemma_loaded_slot_unique(
    recs: Seq<(Address, SerializableAccountRecord)>,
    a: Address,
    s: U256,
)
    requires
        unique_keys(recs),
    ensures
        loaded_slot(recs, a, s) == match lookup(recs, a) {
            Some(rec) => lookup(rec.storage@, s),
            None => None,
        },
    decreases recs.len(),
{
    if recs.len() > 0 {
        let d = recs.drop_last();
        assert(unique_keys(d)) by {
            assert forall|i: int, j: int| 0 <= i < j < d.len() implies #[trigger] d[i].0
                != #[trigger] d[j].0 by {
                assert(d[i] == recs[i] && d[j] == recs[j]);
            }
        }
        lemma_loaded_slot_unique(d, a, s);
        if recs.last().0 == a {
            assert forall|i: int| 0 <= i < d.len() implies (#[trigger] d[i]).0 != a by {
                assert(d[i] == recs[i]);
                assert(recs.last() == recs[recs.len() - 1]);
            }
            lemma_lookup_absent(d, a);
        }
    }
}

/// What loading a dump writes is what the dumped base layer reads.
proof fn lemma_dump_reads(db: StateDb, st: SerializableState, a: Address, s: U256)
    requires
        db.wf(),
        db.is_dump(st),
    ensures
        loaded_account(st.accounts@, a) == db.layers@[0].account(a),
        loaded_slot(st.accounts@, a, s) == db.layers@[0].slot(a, s),
{
    let base = db.layers@[0];
    let recs = st.accounts@;
    assert(base.wf());
    assert forall|i: int| 0 <= i < recs.len() implies (#[trigger] recs[i]).0 == base.accounts@[i].0 by {
        assert(record_of(recs[i], base.accounts@[i], base.storage@));
    }
    assert(unique_keys(recs)) by {
        assert forall|i: int, j: int| 0 <= i < j < recs.len() implies #[trigger] recs[i].0
            != #[trigger] recs[j].0 by {
            assert(base.accounts@[i].0 != base.accounts@[j].0);
        }
    }
    lemma_loaded_slot_unique(recs, a, s);
    lemma_slots_of_lookup(base.storage@, a, s);
    if exists|i: int| 0 <= i < recs.len() && (#[trigger] recs[i]).0 == a {
        let i = choose|i: int| 0 <= i < recs.len() && (#[trigger] recs[i]).0 == a;
        assert(record_of(recs[i], base.accounts@[i], base.storage@));
        assert(base.accounts@[i].1.is_consistent());
        lemma_lookup_at(recs, i);
        lemma_lookup_at(base.accounts@, i);
    } else {
        assert forall|i: int| 0 <= i < base.accounts@.len() implies (
        #[trigger] base.accounts@[i]).0 != a by {
            assert(recs[i].0 == base.accounts@[i].0);
        }
        lemma_lookup_absent(recs, a);
        lemma_lookup_absent(base.accounts@, a);
        assert forall|j: int| 0 <= j < base.storage@.len() implies (
        #[trigger] base.storage@[j]).0 != (a, s) by {
            assert(lookup(base.accounts@, base.storage@[j].0.0) is Some);
        }
        lemma_lookup_absent(base.storage@, (a, s));
    }
}

/// Loading a dump of the base layer into the same store changes nothing that
/// can be read.
pub proof fn lemma_dump_load_round_trip(db: StateDb, st: SerializableState, loaded: StateDb)
    requires
        db.wf(),
        db.is_dump(st),
        loaded.is_load(&db, st),
    ensures
        loaded.observably_equal(&db),
{
    assert forall|a: Address, s: U256|
        loaded.layers@[0].account(a) == #[trigger] db.layers@[0].account(a) && loaded.layers@[0].slot(
            a,
            s,
        ) == #[trigger] db.layers@[0].slot(a, s) by {
        lemma_dump_reads(db, st, a, s);
    }
    assert forall|a: Address| #[trigger] loaded.account(a) == db.account(a) by {
        lemma_stack_same_base(loaded.layers@, db.layers@, a, U256 { high: 0, low: 0 });
    }
    assert forall|a: Address, s: U256| #[trigger]
        loaded.storage_value(a, s) == db.storage_value(a, s) by {
        lemma_stack_same_base(loaded.layers@, db.layers@, a, s);
    }
}

/// Loading a dump of a store that has only its base layer into a fresh store
/// gives a store that reads as the dumped one.
pub proof fn lemma_dump_load_into_fresh(
    db: StateDb,
    st: SerializableState,
    fresh: StateDb,
    loaded: StateDb,
)
    requires
        db.wf(),
        db.layers@.len() == 1,
        db.is_dump(st),
        fresh.layers@.len() == 1,
        fresh.layers@[0].is_empty(),
        loaded.is_load(&fresh, st),
    ensures
        loaded.observably_equal(&db),
{
    assert forall|a: Address, s: U256|
        loaded.layers@[0].account(a) == #[trigger] db.layers@[0].account(a) && loaded.layers@[0].slot(
            a,
            s,
        ) == #[trigger] db.layers@[0].slot(a, s) by {
        lemma_dump_reads(db, st, a, s);
        assert(fresh.layers@[0].account(a) is None);
        assert(fresh.layers@[0].slot(a, s) is None);
    }
    assert(loaded.layers@.skip(1) =~= db.layers@.skip(1));
    assert forall|a: Address| #[trigger] loaded.account(a) == db.account(a) by {
        lemma_stack_same_base(loaded.layers@, db.layers@, a, U256 { high: 0, low: 0 });
    }
    assert forall|a: Address, s: U256| #[trigger]
        loaded.storage_value(a, s) == db.storage_value(a, s) by {
        lemma_stack_same_base(loaded.layers@, db.layers@, a, s);
    }
}

} // verus!
