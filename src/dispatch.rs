//! Handlers for the requests that read or write the state store, and the
//! JSON text of their results.

use crate::encode::{bytes_text, encode_bytes, encode_quantity, encode_word, quantity_text, word_text};
use crate::request::{EthRequest, RequestError};
use crate::state::{code_hash_of, AccountView, StateDb};
use crate::types::{Address, H256, U256};
use vstd::prelude::*;
use vstd::string::StringExecFns;

verus! {

/// The result of a handled request.
#[derive(Debug, Clone, PartialEq, Eq)]
pub enum Response {
    /// A quantity, encoded without leading zeros.
    Quantity(U256),
    /// A 32-byte word, encoded at full width.
    Word(U256),
    Bytes(Vec<u8>),
    Bool(bool),
}

/// `s` in JSON string quotes.
pub open spec fn quoted(s: Seq<char>) -> Seq<char> {
    seq!['"'] + s + seq!['"']
}

impl Response {
    /// The JSON text of the result.
    pub fn to_json(&self) -> (r: String)
        ensures
            match *self {
                Response::Quantity(q) => r@ == quoted(quantity_text(q)),
                Response::Word(w) => r@ == quoted(word_text(w)),
                Response::Bytes(b) => r@ == quoted(bytes_text(b@)),
                Response::Bool(b) => r@ == if b {
                    "true"@
                } else {
                    "false"@
                },
            },
    {
        proof {
            reveal_strlit("\"");
        }
        let body = match self {
            Response::Quantity(q) => encode_quantity(*q),
            Response::Word(w) => encode_word(*w),
            Response::Bytes(b) => encode_bytes(b.as_slice()),
            Response::Bool(b) => {
                return if *b {
                    String::from_str("true")
                } else {
                    String::from_str("false")
                };
            },
        };
        let mut s = String::from_str("\"");
        s.append(body.as_str());
        s.append("\"");
        assert(s@ =~= quoted(body@));
        s
    }
}

/// Answers a request that reads the state: balance, nonce, code or a storage
/// slot of an account. Other requests get `None`.
pub fn handle_read(req: &EthRequest, db: &StateDb) -> (r: Option<Response>)
    requires
        db.wf(),
    ensures
        match *req {
            EthRequest::EthGetBalance(a, _) => r matches Some(Response::Quantity(v))
                && v.value() == db.account(a).balance,
            EthRequest::EthGetTransactionCount(a, _) => r matches Some(Response::Quantity(v))
                && v.value() == db.account(a).nonce,
            EthRequest::EthGetCodeAt(a, _) => r matches Some(Response::Bytes(c)) && c@ == db.account(a).code,
            EthRequest::EthGetStorageAt(a, s, _) => r matches Some(Response::Word(v)) && v.value()
                == db.storage_value(a, s),
            _ => r is None,
        },
{
    match req {
        EthRequest::EthGetBalance(a, _) => Some(Response::Quantity(db.basic(*a).balance)),
        EthRequest::EthGetTransactionCount(a, _) => Some(
            Response::Quantity(U256::from_u64(db.basic(*a).nonce)),
        ),
        EthRequest::EthGetCodeAt(a, _) => {
            let info = db.basic(*a);
            let code = match info.code {
                Some(c) => c,
                None => Vec::new(),
            };
            Some(Response::Bytes(code))
        },
        EthRequest::EthGetStorageAt(a, s, _) => Some(Response::Word(db.storage(*a, *s))),
        _ => None,
    }
}

/// Only the account at `a` may read differently; no slot does.
pub open spec fn only_account_changed(old: &StateDb, new: &StateDb, a: Address) -> bool {
    &&& forall|b: Address| b != a ==> #[trigger] new.account(b) == old.account(b)
    &&& forall|b: Address, s: U256| #[trigger] new.storage_value(b, s) == old.storage_value(b, s)
}

/// Only slot `slot` of `a` may read differently; no account does.
pub open spec fn only_slot_changed(old: &StateDb, new: &StateDb, a: Address, slot: U256) -> bool {
    &&& forall|b: Address| #[trigger] new.account(b) == old.account(b)
    &&& forall|b: Address, s: U256|
        !(b == a && s == slot) ==> #[trigger] new.storage_value(b, s) == old.storage_value(b, s)
}

/// Answers a request that writes the state or takes or reverts a snapshot.
/// Other requests get `None` and leave the store as it was.
pub fn handle_write(req: &EthRequest, db: &mut StateDb) -> (r: Option<Result<Response, RequestError>>)
    requires
        old(db).wf(),
    ensures
        final(db).wf(),
        match *req {
            EthRequest::EvmSnapshot => r matches Some(Ok(Response::Quantity(id))) && id.value()
                == old(db).layers@.len() && final(db).layers@.drop_last() == old(db).layers@
                && final(db).layers@.last().is_empty(),
            EthRequest::EvmRevert(id) => r == Some(
                Ok::<Response, RequestError>(
                    Response::Bool(1 <= id.value() < old(db).layers@.len()),
                ),
            ) && (1 <= id.value() < old(db).layers@.len() ==> final(db).layers@ == old(db).layers@.take(id.value() as int))
                && (!(1 <= id.value() < old(db).layers@.len()) ==> final(db).layers@ == old(db).layers@),
            EthRequest::SetBalance(a, v) => r == Some(
                Ok::<Response, RequestError>(Response::Bool(true)),
            ) && final(db).keeps_lower_layers(old(db)) && final(db).account(a) == (AccountView {
                balance: v.value(),
                ..old(db).account(a)
            }) && only_account_changed(old(db), final(db), a),
            EthRequest::SetNonce(a, v) => if v.value() <= u64::MAX {
                r == Some(Ok::<Response, RequestError>(Response::Bool(true))) && final(db).keeps_lower_layers(old(db)) && final(db).account(a) == (AccountView {
                    nonce: v.value() as u64,
                    ..old(db).account(a)
                }) && only_account_changed(old(db), final(db), a)
            } else {
                r == Some(Err::<Response, RequestError>(RequestError::InvalidParams)) && final(db).layers@ == old(db).layers@
            },
            EthRequest::SetCode(a, c) => r == Some(Ok::<Response, RequestError>(Response::Bool(true)))
                && final(db).keeps_lower_layers(old(db)) && final(db).account(a) == (AccountView {
                code: c@,
                code_hash: code_hash_of(c@),
                ..old(db).account(a)
            }) && only_account_changed(old(db), final(db), a),
            EthRequest::SetStorageAt(a, s, v) => r == Some(
                Ok::<Response, RequestError>(Response::Bool(true)),
            ) && final(db).keeps_lower_layers(old(db)) && final(db).storage_value(a, s)
                == v.value() && only_slot_changed(old(db), final(db), a, s),
            _ => r is None && final(db).layers@ == old(db).layers@,
        },
{
    match req {
        EthRequest::EvmSnapshot => Some(Ok(Response::Quantity(db.snapshot()))),
        EthRequest::EvmRevert(id) => Some(Ok(Response::Bool(db.revert(*id)))),
        EthRequest::SetBalance(a, v) => {
            db.set_balance(*a, *v);
            Some(Ok(Response::Bool(true)))
        },
        EthRequest::SetNonce(a, v) => {
            if v.high == 0 && v.low <= u64::MAX as u128 {
                db.set_nonce(*a, v.low as u64);
                Some(Ok(Response::Bool(true)))
            } else {
                proof {
                    if v.high > 0 {
                        assert(v.high as nat * crate::types::pow2_128() >= crate::types::pow2_128())
                            by (nonlinear_arith)
                            requires
                                v.high > 0,
                        ;
                    }
                }
                Some(Err(RequestError::InvalidParams))
            }
        },
        EthRequest::SetCode(a, c) => {
            db.set_code(*a, c.clone());
            Some(Ok(Response::Bool(true)))
        },
        EthRequest::SetStorageAt(a, s, v) => {
            db.set_storage_at(*a, *s, *v);
            Some(Ok(Response::Bool(true)))
        },
        _ => None,
    }
}


/// A hash as a 32-byte word.
pub open spec fn hash_word(h: H256) -> U256 {
    U256 { high: h.high, low: h.low }
}

/// The result of `eth_getWork`, which may or may not include the block number.
#[derive(Debug, Clone, Copy, PartialEq, Eq, Structural)]
pub struct Work {
    pub pow_hash: H256,
    pub seed_hash: H256,
    pub target: H256,
    pub number: Option<u64>,
}

impl Work {
    /// The JSON text: an array of the three hashes, and the block number as a
    /// quantity where there is one.
    pub fn to_json(&self) -> (r: String)
        ensures
            r@ == seq!['['] + quoted(word_text(hash_word(self.pow_hash))) + seq![','] + quoted(
                word_text(hash_word(self.seed_hash)),
            ) + seq![','] + quoted(word_text(hash_word(self.target))) + match self.number {
                Some(n) => seq![','] + quoted(quantity_text(U256 { high: 0, low: n as u128 })),
                None => Seq::empty(),
            } + seq![']'],
    {
        proof {
            reveal_strlit("[");
            reveal_strlit("]");
            reveal_strlit(",");
        }
        let mut s = String::from_str("[");
        let a = Response::Word(U256 { high: self.pow_hash.high, low: self.pow_hash.low }).to_json();
        let b = Response::Word(U256 { high: self.seed_hash.high, low: self.seed_hash.low }).to_json();
        let c = Response::Word(U256 { high: self.target.high, low: self.target.low }).to_json();
        s.append(a.as_str());
        s.append(",");
        s.append(b.as_str());
        s.append(",");
        s.append(c.as_str());
        let ghost before = s@;
        match self.number {
            Some(n) => {
                let q = Response::Quantity(U256 { high: 0, low: n as u128 }).to_json();
                s.append(",");
                s.append(q.as_str());
            },
            None => {},
        }
        s.append("]");
        assert(s@ =~= seq!['['] + quoted(word_text(hash_word(self.pow_hash))) + seq![','] + quoted(
            word_text(hash_word(self.seed_hash)),
        ) + seq![','] + quoted(word_text(hash_word(self.target))) + match self.number {
            Some(n) => seq![','] + quoted(quantity_text(U256 { high: 0, low: n as u128 })),
            None => Seq::empty(),
        } + seq![']']);
        s
    }
}

} // verus!
