//! The dev signer: a registry of development keys, and the rules that turn a
//! transaction request and the raw ECDSA signature over it into a signed
//! transaction of the request's type.
//!
//! Computing the signature is the caller's part; the rules for where its
//! parts go are here.

use crate::types::{Address, H256, U256};
use vstd::prelude::*;

verus! {

/// Whether a transaction calls an account or creates a contract.
#[derive(Debug, Clone, Copy, PartialEq, Eq, Structural)]
pub enum TransactionKind {
    Call(Address),
    Create,
}

/// The fields that every transaction type shares.
#[derive(Debug, Clone)]
pub struct TransactionFields {
    pub nonce: U256,
    pub gas_limit: U256,
    pub kind: TransactionKind,
    pub value: U256,
    pub input: Vec<u8>,
}

/// A legacy request; `chain_id` present means replay-protected.
#[derive(Debug, Clone)]
pub struct LegacyTransactionRequest {
    pub fields: TransactionFields,
    pub gas_price: U256,
    pub chain_id: Option<u64>,
}

/// An access-list request.
#[derive(Debug, Clone)]
pub struct EIP2930TransactionRequest {
    pub fields: TransactionFields,
    pub chain_id: u64,
    pub gas_price: U256,
    pub access_list: Vec<(Address, Vec<H256>)>,
}

/// A dynamic-fee request.
#[derive(Debug, Clone)]
pub struct EIP1559TransactionRequest {
    pub fields: TransactionFields,
    pub chain_id: u64,
    pub max_priority_fee_per_gas: U256,
    pub max_fee_per_gas: U256,
    pub access_list: Vec<(Address, Vec<H256>)>,
}

#[derive(Debug, Clone)]
pub enum TypedTransactionRequest {
    Legacy(LegacyTransactionRequest),
    EIP2930(EIP2930TransactionRequest),
    EIP1559(EIP1559TransactionRequest),
}

/// The raw ECDSA signature over a request's signing hash.
#[derive(Debug, Clone, Copy, PartialEq, Eq, Structural)]
pub struct RawSignature {
    pub r: U256,
    pub s: U256,
    /// The recovery id, 0 or 1.
    pub recovery_id: u8,
}

/// A legacy signature with its `v`.
#[derive(Debug, Clone, Copy, PartialEq, Eq, Structural)]
pub struct LegacySignature {
    pub r: U256,
    pub s: U256,
    pub v: u64,
}

#[derive(Debug, Clone)]
pub struct LegacyTransaction {
    pub request: LegacyTransactionRequest,
    pub signature: LegacySignature,
}

#[derive(Debug, Clone)]
pub struct EIP2930Transaction {
    pub request: EIP2930TransactionRequest,
    pub odd_y_parity: bool,
    pub r: H256,
    pub s: H256,
}

#[derive(Debug, Clone)]
pub struct EIP1559Transaction {
    pub request: EIP1559TransactionRequest,
    pub odd_y_parity: bool,
    pub r: H256,
    pub s: H256,
}

#[derive(Debug, Clone)]
pub enum TypedTransaction {
    Legacy(LegacyTransaction),
    EIP2930(EIP2930Transaction),
    EIP1559(EIP1559Transaction),
}

/// Why a request could not be signed.
#[derive(Debug, Clone, Copy, PartialEq, Eq, Structural)]
pub enum SignError {
    /// No key is held for the account.
    NoSignerAvailable,
    /// The recovery id is neither 0 nor 1.
    InvalidRecoveryId,
    /// The key is not a usable secret, or signing failed.
    SigningFailed,
    /// A legacy `v` for this chain id does not fit 64 bits.
    ChainIdTooLarge,
}

/// The legacy `v`: 27 or 28, or with a chain id `recovery_id + 35 + 2 * chain_id`.
pub open spec fn legacy_v(recovery_id: u8, chain_id: Option<u64>) -> int {
    match chain_id {
        Some(c) => recovery_id + 35 + 2 * c,
        None => recovery_id + 27,
    }
}

/// A 256-bit scalar as 32 big-endian bytes.
pub open spec fn scalar_bytes(x: U256) -> H256 {
    H256 { high: x.high, low: x.low }
}

/// `r` is `request` signed with `sig`: a legacy transaction keeps `r` and `s`
/// and gets `v`; a typed one gets the parity of `y` from the recovery id and
/// `r` and `s` as 32-byte big-endian scalars.
pub open spec fn assembled(
    request: TypedTransactionRequest,
    sig: RawSignature,
    r: Result<TypedTransaction, SignError>,
) -> bool {
    if sig.recovery_id > 1 {
        r == Err::<TypedTransaction, SignError>(SignError::InvalidRecoveryId)
    } else {
        match (request, r) {
            (TypedTransactionRequest::Legacy(q), _) => if legacy_v(sig.recovery_id, q.chain_id)
                > u64::MAX {
                r == Err::<TypedTransaction, SignError>(SignError::ChainIdTooLarge)
            } else {
                r matches Ok(TypedTransaction::Legacy(t)) && t.request == q && t.signature
                    == LegacySignature {
                    r: sig.r,
                    s: sig.s,
                    v: legacy_v(sig.recovery_id, q.chain_id) as u64,
                }
            },
            (TypedTransactionRequest::EIP2930(q), Ok(TypedTransaction::EIP2930(t))) => t.request == q
                && t.odd_y_parity == (sig.recovery_id != 0) && t.r == scalar_bytes(sig.r) && t.s
                == scalar_bytes(sig.s),
            (TypedTransactionRequest::EIP1559(q), Ok(TypedTransaction::EIP1559(t))) => t.request == q
                && t.odd_y_parity == (sig.recovery_id != 0) && t.r == scalar_bytes(sig.r) && t.s
                == scalar_bytes(sig.s),
            _ => false,
        }
    }
}

/// Places the signature's parts by the request's type.
pub fn assemble(request: TypedTransactionRequest, sig: RawSignature) -> (r: Result<TypedTransaction, SignError>)
    ensures
        assembled(request, sig, r),
{
    if sig.recovery_id > 1 {
        return Err(SignError::InvalidRecoveryId);
    }
    let r = H256 { high: sig.r.high, low: sig.r.low };
    let s = H256 { high: sig.s.high, low: sig.s.low };
    let odd_y_parity = sig.recovery_id != 0;
    match request {
        TypedTransactionRequest::Legacy(q) => {
            let v = match q.chain_id {
                Some(c) => {
                    let v = sig.recovery_id as u128 + 35 + 2 * (c as u128);
                    if v > u64::MAX as u128 {
                        return Err(SignError::ChainIdTooLarge);
                    }
                    v as u64
                },
                None => sig.recovery_id as u64 + 27,
            };
            Ok(
                TypedTransaction::Legacy(
                    LegacyTransaction { request: q, signature: LegacySignature { r: sig.r, s: sig.s, v } },
                ),
            )
        },
        TypedTransactionRequest::EIP2930(q) => Ok(
            TypedTransaction::EIP2930(EIP2930Transaction { request: q, odd_y_parity, r, s }),
        ),
        TypedTransactionRequest::EIP1559(q) => Ok(
            TypedTransaction::EIP1559(EIP1559Transaction { request: q, odd_y_parity, r, s }),
        ),
    }
}

/// The order of the secp256k1 group: secret keys lie strictly between zero
/// and it.
pub open spec fn secp256k1_order() -> nat {
    0xFFFFFFFFFFFFFFFFFFFFFFFFFFFFFFFEBAAEDCE6AF48A03BBFD25E8CD0364141nat
}

/// The deterministic (RFC 6979) recoverable ECDSA signature over secp256k1 of
/// the 32-byte `hash` with the secret `secret`: `r`, `s` and the recovery id.
pub uninterp spec fn ecdsa_of(secret: nat, hash: nat) -> (nat, nat, u8);

/// Signing `hash` with `secret` succeeds.
pub uninterp spec fn ecdsa_succeeds(secret: nat, hash: nat) -> bool;

/// Relies on k256's `SigningKey::from_bytes`, which refuses a secret of zero
/// or of the group order and above, and `SigningKey::sign_prehash_recoverable`,
/// which signs the prehashed message deterministically.
#[verifier::external_body]
fn ecdsa_sign(secret: &H256, hash: &H256) -> (r: Option<RawSignature>)
    ensures
        r is Some == ecdsa_succeeds(secret.value(), hash.value()),
        r is Some ==> 0 < secret.value() < secp256k1_order(),
        r matches Some(sig) ==> (sig.r.value(), sig.s.value(), sig.recovery_id) == ecdsa_of(
            secret.value(),
            hash.value(),
        ),
{
    let word = |h: &H256| [h.high.to_be_bytes(), h.low.to_be_bytes()].concat();
    let key = ethers_core::k256::ecdsa::SigningKey::from_slice(&word(secret)).ok()?;
    let (sig, recid) = key.sign_prehash_recoverable(&word(hash)).ok()?;
    let b = sig.to_bytes();
    let half = |x: &[u8]| u128::from_be_bytes(x.try_into().unwrap());
    Some(RawSignature {
        r: U256 { high: half(&b[0..16]), low: half(&b[16..32]) },
        s: U256 { high: half(&b[32..48]), low: half(&b[48..64]) },
        recovery_id: recid.to_byte(),
    })
}

/// A development signing key: the 32-byte secret scalar.
#[derive(Debug, Clone, Copy, PartialEq, Eq, Structural)]
pub struct DevKey {
    pub secret: H256,
}

/// Holds a development key for each of its accounts.
#[derive(Debug)]
pub struct DevSigner {
    pub accounts: Vec<(Address, DevKey)>,
}

impl DevSigner {
    pub fn new(accounts: Vec<(Address, DevKey)>) -> (r: DevSigner)
        ensures
            r.accounts@ == accounts@,
    {
        DevSigner { accounts }
    }

    /// The accounts that this signer can sign for, in the order held.
    pub fn accounts(&self) -> (r: Vec<Address>)
        ensures
            r@ == self.accounts@.map_values(|e: (Address, DevKey)| e.0),
    {
        let mut r: Vec<Address> = Vec::new();
        let mut i: usize = 0;
        while i < self.accounts.len()
            invariant
                i <= self.accounts@.len(),
                r@ == self.accounts@.take(i as int).map_values(|e: (Address, DevKey)| e.0),
            decreases self.accounts@.len() - i,
        {
            r.push(self.accounts[i].0);
            assert(self.accounts@.take(i + 1) =~= self.accounts@.take(i as int).push(
                self.accounts@[i as int],
            ));
            i = i + 1;
        }
        assert(self.accounts@.take(i as int) =~= self.accounts@);
        r
    }

    /// The key for `address`: the first one held for it.
    pub fn key_for(&self, address: &Address) -> (r: Result<DevKey, SignError>)
        ensures
            match r {
                Ok(k) => exists|i: int|
                    0 <= i < self.accounts@.len() && self.accounts@[i] == (*address, k) && forall|
                        j: int,
                    |
                        0 <= j < i ==> (#[trigger] self.accounts@[j]).0 != *address,
                Err(e) => e == SignError::NoSignerAvailable && forall|j: int|
                    0 <= j < self.accounts@.len() ==> (#[trigger] self.accounts@[j]).0 != *address,
            },
    {
        let mut i: usize = 0;
        while i < self.accounts.len()
            invariant
                i <= self.accounts@.len(),
                forall|j: int| 0 <= j < i ==> (#[trigger] self.accounts@[j]).0 != *address,
            decreases self.accounts@.len() - i,
        {
            if self.accounts[i].0 == *address {
                return Ok(self.accounts[i].1);
            }
            i = i + 1;
        }
        Err(SignError::NoSignerAvailable)
    }

    /// Signs `request` for `address`, whose signing hash is `signing_hash`.
    ///
    /// Without a key for the account it is `NoSignerAvailable`. Otherwise the
    /// hash is signed with the key, and the signature placed by `assemble`.
    pub fn sign(&self, request: TypedTransactionRequest, address: &Address, signing_hash: H256) -> (r:
        Result<TypedTransaction, SignError>)
        ensures
            (r == Err::<TypedTransaction, SignError>(SignError::NoSignerAvailable)) == (forall|
                j: int,
            |
                0 <= j < self.accounts@.len() ==> (#[trigger] self.accounts@[j]).0 != *address),
            forall|i: int|
                0 <= i < self.accounts@.len() && self.accounts@[i].0 == *address && (forall|j: int|
                    0 <= j < i ==> (#[trigger] self.accounts@[j]).0 != *address) ==> {
                    let secret = self.accounts@[i].1.secret;
                    &&& !(0 < secret.value() < secp256k1_order()) ==> r == Err::<
                        TypedTransaction,
                        SignError,
                    >(SignError::SigningFailed)
                    &&& !ecdsa_succeeds(secret.value(), signing_hash.value()) ==> r == Err::<
                        TypedTransaction,
                        SignError,
                    >(SignError::SigningFailed)
                    &&& ecdsa_succeeds(secret.value(), signing_hash.value()) ==> exists|
                        sig: RawSignature,
                    |
                        (sig.r.value(), sig.s.value(), sig.recovery_id) == ecdsa_of(
                            secret.value(),
                            signing_hash.value(),
                        ) && assembled(request, sig, r)
                },
    {
        let key = match self.key_for(address) {
            Ok(k) => k,
            Err(e) => return Err(e),
        };
        proof {
            let i = choose|i: int|
                0 <= i < self.accounts@.len() && self.accounts@[i] == (*address, key) && forall|j: int|
                    0 <= j < i ==> (#[trigger] self.accounts@[j]).0 != *address;
            assert forall|i2: int|
                0 <= i2 < self.accounts@.len() && self.accounts@[i2].0 == *address && (forall|j: int|
                    0 <= j < i2 ==> (#[trigger] self.accounts@[j]).0 != *address) implies i2 == i by {
                if i2 < i {
                    assert(self.accounts@[i2].0 != *address);
                } else if i < i2 {
                    assert(self.accounts@[i].0 != *address);
                }
            }
            assert(self.accounts@[i].0 == *address);
        }
        match ecdsa_sign(&key.secret, &signing_hash) {
            None => Err(SignError::SigningFailed),
            Some(sig) => {
                let r = assemble(request, sig);
                assert(r != Err::<TypedTransaction, SignError>(SignError::NoSignerAvailable));
                r
            },
        }
    }
}

} // verus!
