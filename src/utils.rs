//! Small helpers on texts and gas.

use crate::hex::{dec_number, has_0x, hex_number};
use crate::types::{pow2_128, U256};
use vstd::string::StringSliceAdditionalSpecFns;
use vstd::prelude::*;

verus! {

/// Relies on `str::strip_prefix`: the text after a leading `0x`, if it has one.
#[verifier::external_body]
fn strip_0x(s: &str) -> (r: Option<&str>)
    ensures
        r is Some == (s@.len() >= 2 && s@[0] == '0' && s@[1] == 'x'),
        r matches Some(t) ==> t@ == s@.skip(2),
{
    s.strip_prefix("0x")
}

/// Removes a `0x` prefix if there is one.
pub fn strip_0x_prefix(s: &str) -> (r: Result<String, &'static str>)
    ensures
        r matches Ok(t) && t@ == if s@.len() >= 2 && s@[0] == '0' && s@[1] == 'x' {
            s@.skip(2)
        } else {
            s@
        },
{
    match strip_0x(s) {
        Some(t) => Ok(t.to_owned()),
        None => Ok(s.to_owned()),
    }
}

/// Relies on `str::rsplit_once`: the texts before and after the last `:`,
/// if there is one.
#[verifier::external_body]
fn split_at_last_colon(s: &str) -> (r: Option<(&str, &str)>)
    ensures
        r is Some == s@.contains(':'),
        r matches Some((a, b)) ==> s@ == a@ + seq![':'] + b@ && !b@.contains(':'),
{
    s.rsplit_once(':')
}

/// Relies on `str::split_once`: the texts before and after the first `:`, if
/// there is one.
#[verifier::external_body]
fn split_at_first_colon(s: &str) -> (r: Option<(&str, &str)>)
    ensures
        r is Some == s@.contains(':'),
        r matches Some((a, b)) ==> s@ == a@ + seq![':'] + b@ && !a@.contains(':'),
{
    s.split_once(':')
}

/// The contract name of an identifier `<artifact file name>:<contract name>`:
/// what follows the last `:`, or the whole identifier where there is none.
pub fn get_contract_name(id: &str) -> (r: &str)
    ensures
        !id@.contains(':') ==> r@ == id@,
        id@.contains(':') ==> !r@.contains(':') && exists|a: Seq<char>| id@ == a + seq![':'] + r@,
{
    match split_at_last_colon(id) {
        Some((_, name)) => name,
        None => id,
    }
}

/// The file name of an identifier `<artifact file name>:<contract name>`:
/// what precedes the first `:`, or the whole identifier where there is none.
pub fn get_file_name(id: &str) -> (r: &str)
    ensures
        !id@.contains(':') ==> r@ == id@,
        id@.contains(':') ==> !r@.contains(':') && exists|b: Seq<char>| id@ == r@ + seq![':'] + b,
{
    match split_at_first_colon(id) {
        Some((file, _)) => file,
        None => id,
    }
}

/// The gas that a transaction pays before execution.
pub const BASE_TX_COST: u64 = 21000;

/// What calldata costs: 16 per nonzero byte, 8 per zero byte.
pub open spec fn calldata_cost(data: Seq<u8>) -> nat
    decreases data.len(),
{
    if data.len() == 0 {
        0
    } else {
        calldata_cost(data.drop_last()) + if data.last() != 0 {
            16nat
        } else {
            8nat
        }
    }
}

/// The gas used by execution alone: `gas` less the calldata cost and the
/// base transaction cost. `gas` must cover both.
pub fn remove_extra_costs(gas: U256, calldata: &[u8]) -> (r: U256)
    requires
        gas.value() >= calldata_cost(calldata@) + BASE_TX_COST,
    ensures
        r.value() == gas.value() - calldata_cost(calldata@) - BASE_TX_COST,
{
    let mut cost: u128 = 0;
    let mut i: usize = 0;
    assert(calldata@.take(0) =~= Seq::<u8>::empty());
    while i < calldata.len()
        invariant
            i <= calldata@.len(),
            cost == calldata_cost(calldata@.take(i as int)),
            cost <= 16 * i,
        decreases calldata@.len() - i,
    {
        let ghost t = calldata@.take(i + 1);
        assert(t.drop_last() =~= calldata@.take(i as int));
        if calldata[i] != 0 {
            cost = cost + 16;
        } else {
            cost = cost + 8;
        }
        i = i + 1;
    }
    assert(calldata@.take(i as int) =~= calldata@);
    let total = U256::from_u128(cost + BASE_TX_COST as u128);
    match gas.checked_sub(total) {
        Some(d) => d,
        None => U256::zero(),
    }
}


pub open spec fn pow2_256() -> nat {
    pow2_128() * pow2_128()
}

/// The hex digits of a text, after a `0x` where there is one.
pub open spec fn hex_body(b: Seq<u8>) -> Seq<u8> {
    if has_0x(b) {
        b.skip(2)
    } else {
        b
    }
}

/// Relies on `U256::from_dec_str` of ethers-core: decimal digits whose value
/// fits 256 bits, no digits being zero.
#[verifier::external_body]
fn u256_from_dec_str(s: &str) -> (r: Option<U256>)
    ensures
        r is Some == (dec_number(s.spec_bytes()) is Some && dec_number(s.spec_bytes()).unwrap()
            < pow2_256()),
        r matches Some(v) ==> v.value() == dec_number(s.spec_bytes()).unwrap(),
{
    ethers_core::types::U256::from_dec_str(s).ok().map(|v| {
        let mut b = [0u8; 32];
        v.to_big_endian(&mut b);
        U256 {
            high: u128::from_be_bytes(b[..16].try_into().unwrap()),
            low: u128::from_be_bytes(b[16..].try_into().unwrap()),
        }
    })
}

/// Relies on `<U256 as FromStr>::from_str` of ethers-core: hex digits after an
/// optional `0x`, at most sixty-four of them, no digits being zero.
#[verifier::external_body]
fn u256_from_hex_str(s: &str) -> (r: Option<U256>)
    ensures
        r is Some == (hex_body(s.spec_bytes()).len() <= 64 && hex_number(hex_body(s.spec_bytes()))
            is Some),
        r matches Some(v) ==> v.value() == hex_number(hex_body(s.spec_bytes())).unwrap(),
{
    s.parse::<ethers_core::types::U256>().ok().map(|v| {
        let mut b = [0u8; 32];
        v.to_big_endian(&mut b);
        U256 {
            high: u128::from_be_bytes(b[..16].try_into().unwrap()),
            low: u128::from_be_bytes(b[16..].try_into().unwrap()),
        }
    })
}

/// Why a text is not a 256-bit number.
#[derive(Debug, Clone, Copy, PartialEq, Eq, Structural)]
pub enum ParseU256Error {
    /// Not hex digits after `0x`, or more than sixty-four of them.
    InvalidHex,
    /// Not decimal digits, or a value of 2^256 or more.
    InvalidDecimal,
}

/// Parses a 256-bit number: hex after `0x`, decimal otherwise.
pub fn parse_u256(s: &str) -> (r: Result<U256, ParseU256Error>)
    ensures
        has_0x(s.spec_bytes()) ==> match r {
            Ok(v) => hex_body(s.spec_bytes()).len() <= 64 && hex_number(hex_body(s.spec_bytes()))
                == Some(v.value()),
            Err(e) => e == ParseU256Error::InvalidHex && !(hex_body(s.spec_bytes()).len() <= 64
                && hex_number(hex_body(s.spec_bytes())) is Some),
        },
        !has_0x(s.spec_bytes()) ==> match r {
            Ok(v) => dec_number(s.spec_bytes()) == Some(v.value()),
            Err(e) => e == ParseU256Error::InvalidDecimal && !(dec_number(s.spec_bytes()) is Some
                && dec_number(s.spec_bytes()).unwrap() < pow2_256()),
        },
{
    let b = s.as_bytes();
    if b.len() >= 2 && b[0] == 0x30 && b[1] == 0x78 {
        match u256_from_hex_str(s) {
            Some(v) => Ok(v),
            None => Err(ParseU256Error::InvalidHex),
        }
    } else {
        match u256_from_dec_str(s) {
            Some(v) => Ok(v),
            None => Err(ParseU256Error::InvalidDecimal),
        }
    }
}

} // verus!
