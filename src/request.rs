//! The request envelope: a method name and its parameters, decoded into a
//! typed request.
//!
//! Parameters are positional. A method that takes exactly one parameter also
//! accepts it bare, not wrapped in an array. Trailing optional parameters may
//! be left out or given as `null`.

use crate::hex::{
    parse_address, parse_bytes, parse_dec_u64, parse_h256, parse_hex_u64, parse_u256, spec_address,
    spec_bytes, spec_dec_u64, spec_h256, spec_hex_u64, spec_u256, text_eq,
};
use crate::types::{Address, H256, U256};
use vstd::prelude::*;
use vstd::utf8::encode_utf8;

verus! {

/// A JSON number: an unsigned integer that fits 64 bits, or any other number
/// in its written form.
#[derive(Debug, Clone, PartialEq)]
pub enum JsonNumber {
    Unsigned(u64),
    Other(String),
}

/// A JSON value.
#[derive(Debug, PartialEq)]
pub enum JsonValue {
    Null,
    Bool(bool),
    Number(JsonNumber),
    String(String),
    Array(Vec<JsonValue>),
    Object(Vec<(String, JsonValue)>),
}

/// A block tag or a block number.
#[derive(Debug, Clone, Copy, PartialEq, Eq, Structural)]
pub enum BlockNumber {
    Latest,
    Earliest,
    Pending,
    Safe,
    Finalized,
    Number(u64),
}

/// A transaction or uncle index, written in hex or in decimal.
#[derive(Debug, Clone, Copy, PartialEq, Eq, Structural, Hash)]
pub struct Index(pub usize);

impl From<Index> for usize {
    fn from(idx: Index) -> (r: usize)
        ensures
            r == idx.0,
    {
        idx.0
    }
}

impl vstd::std_specs::convert::FromSpecImpl<Index> for usize {
    open spec fn obeys_from_spec() -> bool {
        true
    }

    open spec fn from_spec(idx: Index) -> usize {
        idx.0
    }
}

/// Additional `evm_mine` options.
#[derive(Debug, Clone, Copy, PartialEq, Eq, Structural)]
pub enum EvmMineOptions {
    /// The timestamp of the block and how many blocks to mine.
    Options { timestamp: Option<u64>, blocks: Option<u64> },
    /// The timestamp the block should be mined with.
    Timestamp(Option<u64>),
}

/// The parameters to set forking: an upstream endpoint and a block to pin.
#[derive(Debug, Clone, PartialEq, Eq, Default)]
pub struct Forking {
    pub json_rpc_url: Option<String>,
    pub block_number: Option<BlockNumber>,
}

/// Why a request could not be decoded.
#[derive(Debug, Clone, Copy, PartialEq, Eq, Structural)]
pub enum RequestError {
    /// No method of that name.
    MethodNotFound,
    /// The parameters do not fit the method.
    InvalidParams,
    /// The message is not a request, or is an empty batch.
    InvalidRequest,
}

impl RequestError {
    /// The JSON-RPC error code.
    pub fn code(&self) -> (r: i64)
        ensures
            *self == RequestError::MethodNotFound ==> r == -32601,
            *self == RequestError::InvalidParams ==> r == -32602,
            *self == RequestError::InvalidRequest ==> r == -32600,
    {
        match self {
            RequestError::MethodNotFound => -32601,
            RequestError::InvalidParams => -32602,
            RequestError::InvalidRequest => -32600,
        }
    }
}

/// A decoded request.
#[derive(Debug, PartialEq)]
pub enum EthRequest {
    EthChainId,
    EthGasPrice,
    EthAccounts,
    EthBlockNumber,
    EthGetBalance(Address, Option<BlockNumber>),
    EthGetStorageAt(Address, U256, Option<BlockNumber>),
    EthGetBlockByHash(H256, bool),
    EthGetBlockByNumber(BlockNumber, bool),
    EthGetTransactionCount(Address, Option<BlockNumber>),
    EthGetTransactionCountByHash(H256),
    EthGetTransactionCountByNumber(BlockNumber),
    EthGetUnclesCountByHash(H256),
    EthGetUnclesCountByNumber(BlockNumber),
    EthGetCodeAt(Address, Option<BlockNumber>),
    /// The transaction request object, as sent.
    EthSendTransaction(JsonValue),
    EthSendRawTransaction(Vec<u8>),
    /// The call object, as sent, and the block.
    EthCall(JsonValue, Option<BlockNumber>),
    EthEstimateGas(JsonValue, Option<BlockNumber>),
    EthGetTransactionByHash(H256),
    EthGetTransactionByBlockHashAndIndex(H256, Index),
    EthGetTransactionByBlockNumberAndIndex(BlockNumber, Index),
    EthGetTransactionReceipt(H256),
    EthGetUncleByBlockHashAndIndex(H256, Index),
    EthGetUncleByBlockNumberAndIndex(BlockNumber, Index),
    /// The filter object, as sent.
    EthGetLogs(JsonValue),
    EthGetWork,
    EthSubmitWork(u64, H256, H256),
    EthSubmitHashRate(U256, H256),
    /// Block count, newest block and reward percentiles (JSON numbers).
    EthFeeHistory(U256, BlockNumber, Vec<JsonValue>),
    EvmSnapshot,
    EvmRevert(U256),
    EvmMine(Option<EvmMineOptions>),
    EvmSetAutomine(bool),
    SetBalance(Address, U256),
    SetNonce(Address, U256),
    SetCode(Address, Vec<u8>),
    SetStorageAt(Address, U256, U256),
    ImpersonateAccount(Address),
    DumpState,
    LoadState(Vec<u8>),
}

/// The UTF-8 bytes of a text.
pub open spec fn text_bytes(s: String) -> Seq<u8> {
    encode_utf8(s@)
}

/// The methods that take no parameter.
pub open spec fn no_param_request(m: Seq<char>) -> Option<EthRequest> {
    if m == "eth_chainId"@ {
        Some(EthRequest::EthChainId)
    } else if m == "eth_gasPrice"@ {
        Some(EthRequest::EthGasPrice)
    } else if m == "eth_accounts"@ {
        Some(EthRequest::EthAccounts)
    } else if m == "eth_blockNumber"@ {
        Some(EthRequest::EthBlockNumber)
    } else if m == "eth_getWork"@ {
        Some(EthRequest::EthGetWork)
    } else if m == "evm_snapshot"@ {
        Some(EthRequest::EvmSnapshot)
    } else if m == "anvil_dumpState"@ {
        Some(EthRequest::DumpState)
    } else {
        None
    }
}

/// The methods that take exactly one parameter, which may come bare.
pub open spec fn single_param(m: Seq<char>) -> bool {
    m == "eth_getBlockTransactionCountByHash"@ || m == "eth_getBlockTransactionCountByNumber"@ || m
        == "eth_getUncleCountByBlockHash"@ || m == "eth_getUncleCountByBlockNumber"@ || m
        == "eth_sendTransaction"@ || m == "eth_sendRawTransaction"@ || m
        == "eth_getTransactionByHash"@ || m == "eth_getTransactionReceipt"@ || m
        == "eth_getLogs"@ || m == "evm_revert"@ || m == "evm_mine"@ || m == "evm_setAutomine"@
        || m == "anvil_impersonateAccount"@ || m == "anvil_loadState"@
}

/// The methods that take parameters, one or more.
pub open spec fn multi_param(m: Seq<char>) -> bool {
    m == "eth_getBalance"@ || m == "eth_getStorageAt"@ || m == "eth_getBlockByHash"@ || m
        == "eth_getBlockByNumber"@ || m == "eth_getTransactionCount"@ || m == "eth_getCode"@ || m
        == "eth_call"@ || m == "eth_estimateGas"@ || m == "eth_getTransactionByBlockHashAndIndex"@
        || m == "eth_getTransactionByBlockNumberAndIndex"@ || m
        == "eth_getUncleByBlockHashAndIndex"@ || m == "eth_getUncleByBlockNumberAndIndex"@ || m
        == "eth_submitWork"@ || m == "eth_submitHashrate"@ || m == "eth_feeHistory"@ || m
        == "anvil_setBalance"@ || m == "anvil_setNonce"@ || m == "anvil_setCode"@ || m
        == "anvil_setStorageAt"@
}

pub open spec fn known_method(m: Seq<char>) -> bool {
    no_param_request(m) is Some || single_param(m) || multi_param(m)
}

/// The positional parameters: an array's items; a bare value, `null` too, as
/// the one parameter of a method that takes one; nothing for `null` otherwise.
pub open spec fn positional(m: Seq<char>, params: JsonValue) -> Option<Seq<JsonValue>> {
    match params {
        JsonValue::Array(v) => Some(v@),
        JsonValue::Null => if single_param(m) {
            Some(seq![params])
        } else {
            Some(Seq::empty())
        },
        _ => if single_param(m) {
            Some(seq![params])
        } else {
            None
        },
    }
}

pub open spec fn json_address(v: JsonValue) -> Option<Address> {
    match v {
        JsonValue::String(s) => spec_address(text_bytes(s)),
        _ => None,
    }
}

pub open spec fn json_u256(v: JsonValue) -> Option<U256> {
    match v {
        JsonValue::String(s) => spec_u256(text_bytes(s)),
        _ => None,
    }
}

pub open spec fn json_h256(v: JsonValue) -> Option<H256> {
    match v {
        JsonValue::String(s) => spec_h256(text_bytes(s)),
        _ => None,
    }
}

pub open spec fn json_bool(v: JsonValue) -> Option<bool> {
    match v {
        JsonValue::Bool(b) => Some(b),
        _ => None,
    }
}

pub open spec fn json_bytes(v: JsonValue) -> Option<Seq<u8>> {
    match v {
        JsonValue::String(s) => spec_bytes(text_bytes(s)),
        _ => None,
    }
}

/// A block tag (`latest`, `earliest`, `pending`, `safe`, `finalized`) or a
/// hex block number.
pub open spec fn json_block(v: JsonValue) -> Option<BlockNumber> {
    match v {
        JsonValue::String(s) => if s@ == "latest"@ {
            Some(BlockNumber::Latest)
        } else if s@ == "earliest"@ {
            Some(BlockNumber::Earliest)
        } else if s@ == "pending"@ {
            Some(BlockNumber::Pending)
        } else if s@ == "safe"@ {
            Some(BlockNumber::Safe)
        } else if s@ == "finalized"@ {
            Some(BlockNumber::Finalized)
        } else {
            match spec_hex_u64(text_bytes(s)) {
                Some(n) => Some(BlockNumber::Number(n)),
                None => None,
            }
        },
        _ => None,
    }
}

/// An optional block: absent or `null` is none.
pub open spec fn json_opt_block(ps: Seq<JsonValue>, i: int) -> Option<Option<BlockNumber>> {
    if i >= ps.len() || ps[i] == JsonValue::Null {
        Some(None)
    } else {
        match json_block(ps[i]) {
            Some(b) => Some(Some(b)),
            None => None,
        }
    }
}

/// An index: a JSON integer, a hex quantity or a decimal text.
pub open spec fn json_index(v: JsonValue) -> Option<Index> {
    let n = match v {
        JsonValue::Number(JsonNumber::Unsigned(n)) => Some(n),
        JsonValue::String(s) => if text_bytes(s).len() >= 2 && text_bytes(s)[0] == 0x30
            && text_bytes(s)[1] == 0x78 {
            spec_hex_u64(text_bytes(s))
        } else {
            spec_dec_u64(text_bytes(s))
        },
        _ => None,
    };
    match n {
        Some(n) => if n <= usize::MAX {
            Some(Index(n as usize))
        } else {
            None
        },
        None => None,
    }
}

/// An optional 64-bit integer: `null` is none.
pub open spec fn json_opt_u64(v: JsonValue) -> Option<Option<u64>> {
    match v {
        JsonValue::Null => Some(None),
        JsonValue::Number(JsonNumber::Unsigned(n)) => Some(Some(n)),
        _ => None,
    }
}

/// The value under the first field named `key`.
pub open spec fn json_field(fields: Seq<(String, JsonValue)>, key: Seq<char>) -> Option<JsonValue>
    decreases fields.len(),
{
    if fields.len() == 0 {
        None
    } else if fields[0].0@ == key {
        Some(fields[0].1)
    } else {
        json_field(fields.drop_first(), key)
    }
}

/// `evm_mine` options: an object with optional `timestamp` and `blocks`, or a
/// bare timestamp.
pub open spec fn json_mine_options(v: JsonValue) -> Option<EvmMineOptions> {
    match v {
        JsonValue::Object(fields) => {
            let t = match json_field(fields@, "timestamp"@) {
                Some(x) => json_opt_u64(x),
                None => Some(None),
            };
            let b = match json_field(fields@, "blocks"@) {
                Some(x) => json_opt_u64(x),
                None => Some(None),
            };
            match (t, b) {
                (Some(timestamp), Some(blocks)) => Some(EvmMineOptions::Options { timestamp, blocks }),
                _ => None,
            }
        },
        _ => match json_opt_u64(v) {
            Some(t) => Some(EvmMineOptions::Timestamp(t)),
            None => None,
        },
    }
}

/// The first parameter of `eth_feeHistory`: a JSON integer or a quantity.
pub open spec fn json_block_count(v: JsonValue) -> Option<U256> {
    match v {
        JsonValue::Number(JsonNumber::Unsigned(n)) => Some(U256 { high: 0, low: n as u128 }),
        _ => json_u256(v),
    }
}

pub open spec fn all_numbers(v: Seq<JsonValue>) -> bool {
    forall|i: int| 0 <= i < v.len() ==> (#[trigger] v[i]) is Number
}

/// What decoding yields, in terms of the parameters.
pub enum Decoded {
    Request(EthRequest),
    RawTransaction(Seq<u8>),
    LoadState(Seq<u8>),
    SetCode(Address, Seq<u8>),
    FeeHistory(U256, BlockNumber, Seq<JsonValue>),
    Failed(RequestError),
}

pub open spec fn req_or_invalid(r: Option<EthRequest>) -> Decoded {
    match r {
        Some(q) => Decoded::Request(q),
        None => Decoded::Failed(RequestError::InvalidParams),
    }
}

pub open spec fn is_none_method(m: Seq<char>) -> bool {
    no_param_request(m) is Some
}

pub open spec fn decode_none(m: Seq<char>, ps: Seq<JsonValue>) -> Decoded {
    let n = ps.len();
    if n == 0 {
        Decoded::Request(no_param_request(m).unwrap())
    } else {
        Decoded::Failed(RequestError::InvalidParams)
    }
}

pub open spec fn is_address_block_method(m: Seq<char>) -> bool {
    m == "eth_getBalance"@ || m == "eth_getTransactionCount"@ || m == "eth_getCode"@
}

pub open spec fn decode_address_block(m: Seq<char>, ps: Seq<JsonValue>) -> Decoded {
    let n = ps.len();
    req_or_invalid(
        if 1 <= n <= 2 {
            match (json_address(ps[0]), json_opt_block(ps, 1)) {
                (Some(a), Some(b)) => Some(
                    if m == "eth_getBalance"@ {
                        EthRequest::EthGetBalance(a, b)
                    } else if m == "eth_getTransactionCount"@ {
                        EthRequest::EthGetTransactionCount(a, b)
                    } else {
                        EthRequest::EthGetCodeAt(a, b)
                    },
                ),
                _ => None,
            }
        } else {
            None
        },
    )
}

pub open spec fn is_storage_method(m: Seq<char>) -> bool {
    m == "eth_getStorageAt"@
}

pub open spec fn decode_storage(m: Seq<char>, ps: Seq<JsonValue>) -> Decoded {
    let n = ps.len();
    req_or_invalid(
        if 2 <= n <= 3 {
            match (json_address(ps[0]), json_u256(ps[1]), json_opt_block(ps, 2)) {
                (Some(a), Some(s), Some(b)) => Some(EthRequest::EthGetStorageAt(a, s, b)),
                _ => None,
            }
        } else {
            None
        },
    )
}

pub open spec fn is_block_by_hash_method(m: Seq<char>) -> bool {
    m == "eth_getBlockByHash"@
}

pub open spec fn decode_block_by_hash(m: Seq<char>, ps: Seq<JsonValue>) -> Decoded {
    let n = ps.len();
    req_or_invalid(
        if n == 2 {
            match (json_h256(ps[0]), json_bool(ps[1])) {
                (Some(h), Some(f)) => Some(EthRequest::EthGetBlockByHash(h, f)),
                _ => None,
            }
        } else {
            None
        },
    )
}

pub open spec fn is_block_by_number_method(m: Seq<char>) -> bool {
    m == "eth_getBlockByNumber"@
}

pub open spec fn decode_block_by_number(m: Seq<char>, ps: Seq<JsonValue>) -> Decoded {
    let n = ps.len();
    req_or_invalid(
        if n == 2 {
            match (json_block(ps[0]), json_bool(ps[1])) {
                (Some(b), Some(f)) => Some(EthRequest::EthGetBlockByNumber(b, f)),
                _ => None,
            }
        } else {
            None
        },
    )
}

pub open spec fn is_by_hash_method(m: Seq<char>) -> bool {
    m == "eth_getBlockTransactionCountByHash"@ || m == "eth_getUncleCountByBlockHash"@ || m == "eth_getTransactionByHash"@ || m == "eth_getTransactionReceipt"@
}

pub open spec fn decode_by_hash(m: Seq<char>, ps: Seq<JsonValue>) -> Decoded {
    let n = ps.len();
    req_or_invalid(
        if n == 1 {
            match json_h256(ps[0]) {
                Some(h) => Some(
                    if m == "eth_getBlockTransactionCountByHash"@ {
                        EthRequest::EthGetTransactionCountByHash(h)
                    } else if m == "eth_getUncleCountByBlockHash"@ {
                        EthRequest::EthGetUnclesCountByHash(h)
                    } else if m == "eth_getTransactionByHash"@ {
                        EthRequest::EthGetTransactionByHash(h)
                    } else {
                        EthRequest::EthGetTransactionReceipt(h)
                    },
                ),
                None => None,
            }
        } else {
            None
        },
    )
}

pub open spec fn is_by_number_method(m: Seq<char>) -> bool {
    m == "eth_getBlockTransactionCountByNumber"@ || m == "eth_getUncleCountByBlockNumber"@
}

pub open spec fn decode_by_number(m: Seq<char>, ps: Seq<JsonValue>) -> Decoded {
    let n = ps.len();
    req_or_invalid(
        if n == 1 {
            match json_block(ps[0]) {
                Some(b) => Some(
                    if m == "eth_getBlockTransactionCountByNumber"@ {
                        EthRequest::EthGetTransactionCountByNumber(b)
                    } else {
                        EthRequest::EthGetUnclesCountByNumber(b)
                    },
                ),
                None => None,
            }
        } else {
            None
        },
    )
}

pub open spec fn is_hash_index_method(m: Seq<char>) -> bool {
    m == "eth_getTransactionByBlockHashAndIndex"@ || m == "eth_getUncleByBlockHashAndIndex"@
}

pub open spec fn decode_hash_index(m: Seq<char>, ps: Seq<JsonValue>) -> Decoded {
    let n = ps.len();
    req_or_invalid(
        if n == 2 {
            match (json_h256(ps[0]), json_index(ps[1])) {
                (Some(h), Some(i)) => Some(
                    if m == "eth_getTransactionByBlockHashAndIndex"@ {
                        EthRequest::EthGetTransactionByBlockHashAndIndex(h, i)
                    } else {
                        EthRequest::EthGetUncleByBlockHashAndIndex(h, i)
                    },
                ),
                _ => None,
            }
        } else {
            None
        },
    )
}

pub open spec fn is_number_index_method(m: Seq<char>) -> bool {
    m == "eth_getTransactionByBlockNumberAndIndex"@ || m == "eth_getUncleByBlockNumberAndIndex"@
}

pub open spec fn decode_number_index(m: Seq<char>, ps: Seq<JsonValue>) -> Decoded {
    let n = ps.len();
    req_or_invalid(
        if n == 2 {
            match (json_block(ps[0]), json_index(ps[1])) {
                (Some(b), Some(i)) => Some(
                    if m == "eth_getTransactionByBlockNumberAndIndex"@ {
                        EthRequest::EthGetTransactionByBlockNumberAndIndex(b, i)
                    } else {
                        EthRequest::EthGetUncleByBlockNumberAndIndex(b, i)
                    },
                ),
                _ => None,
            }
        } else {
            None
        },
    )
}

pub open spec fn is_bytes_method(m: Seq<char>) -> bool {
    m == "eth_sendRawTransaction"@ || m == "anvil_loadState"@
}

pub open spec fn decode_bytes(m: Seq<char>, ps: Seq<JsonValue>) -> Decoded {
    let n = ps.len();
    if n == 1 {
        match json_bytes(ps[0]) {
            Some(b) => if m == "eth_sendRawTransaction"@ {
                Decoded::RawTransaction(b)
            } else {
                Decoded::LoadState(b)
            },
            None => Decoded::Failed(RequestError::InvalidParams),
        }
    } else {
        Decoded::Failed(RequestError::InvalidParams)
    }
}

pub open spec fn is_object_method(m: Seq<char>) -> bool {
    m == "eth_sendTransaction"@ || m == "eth_getLogs"@
}

pub open spec fn decode_object(m: Seq<char>, ps: Seq<JsonValue>) -> Decoded {
    let n = ps.len();
    req_or_invalid(
        if n == 1 && ps[0] is Object {
            Some(
                if m == "eth_sendTransaction"@ {
                    EthRequest::EthSendTransaction(ps[0])
                } else {
                    EthRequest::EthGetLogs(ps[0])
                },
            )
        } else {
            None
        },
    )
}

pub open spec fn is_object_block_method(m: Seq<char>) -> bool {
    m == "eth_call"@ || m == "eth_estimateGas"@
}

pub open spec fn decode_object_block(m: Seq<char>, ps: Seq<JsonValue>) -> Decoded {
    let n = ps.len();
    req_or_invalid(
        if 1 <= n <= 2 && ps[0] is Object {
            match json_opt_block(ps, 1) {
                Some(b) => Some(
                    if m == "eth_call"@ {
                        EthRequest::EthCall(ps[0], b)
                    } else {
                        EthRequest::EthEstimateGas(ps[0], b)
                    },
                ),
                None => None,
            }
        } else {
            None
        },
    )
}

pub open spec fn is_submit_work_method(m: Seq<char>) -> bool {
    m == "eth_submitWork"@
}

pub open spec fn decode_submit_work(m: Seq<char>, ps: Seq<JsonValue>) -> Decoded {
    let n = ps.len();
    req_or_invalid(
        if n == 3 {
            match (
                match ps[0] {
                    JsonValue::String(s) => spec_hex_u64(text_bytes(s)),
                    _ => None,
                },
                json_h256(ps[1]),
                json_h256(ps[2]),
            ) {
                (Some(w), Some(a), Some(b)) => Some(EthRequest::EthSubmitWork(w, a, b)),
                _ => None,
            }
        } else {
            None
        },
    )
}

pub open spec fn is_submit_hashrate_method(m: Seq<char>) -> bool {
    m == "eth_submitHashrate"@
}

pub open spec fn decode_submit_hashrate(m: Seq<char>, ps: Seq<JsonValue>) -> Decoded {
    let n = ps.len();
    req_or_invalid(
        if n == 2 {
            match (json_u256(ps[0]), json_h256(ps[1])) {
                (Some(r), Some(h)) => Some(EthRequest::EthSubmitHashRate(r, h)),
                _ => None,
            }
        } else {
            None
        },
    )
}

pub open spec fn is_fee_history_method(m: Seq<char>) -> bool {
    m == "eth_feeHistory"@
}

pub open spec fn decode_fee_history(m: Seq<char>, ps: Seq<JsonValue>) -> Decoded {
    let n = ps.len();
    if 2 <= n <= 3 {
        match (json_block_count(ps[0]), json_block(ps[1])) {
            (Some(c), Some(b)) => if n == 2 {
                Decoded::FeeHistory(c, b, Seq::empty())
            } else {
                match ps[2] {
                    JsonValue::Array(v) => if all_numbers(v@) {
                        Decoded::FeeHistory(c, b, v@)
                    } else {
                        Decoded::Failed(RequestError::InvalidParams)
                    },
                    _ => Decoded::Failed(RequestError::InvalidParams),
                }
            },
            _ => Decoded::Failed(RequestError::InvalidParams),
        }
    } else {
        Decoded::Failed(RequestError::InvalidParams)
    }
}

pub open spec fn is_revert_method(m: Seq<char>) -> bool {
    m == "evm_revert"@
}

pub open spec fn decode_revert(m: Seq<char>, ps: Seq<JsonValue>) -> Decoded {
    let n = ps.len();
    req_or_invalid(
        if n == 1 {
            match json_u256(ps[0]) {
                Some(id) => Some(EthRequest::EvmRevert(id)),
                None => None,
            }
        } else {
            None
        },
    )
}

pub open spec fn is_mine_method(m: Seq<char>) -> bool {
    m == "evm_mine"@
}

pub open spec fn decode_mine(m: Seq<char>, ps: Seq<JsonValue>) -> Decoded {
    let n = ps.len();
    req_or_invalid(
        if n == 0 || (n == 1 && ps[0] == JsonValue::Null) {
            Some(EthRequest::EvmMine(None))
        } else if n == 1 {
            match json_mine_options(ps[0]) {
                Some(o) => Some(EthRequest::EvmMine(Some(o))),
                None => None,
            }
        } else {
            None
        },
    )
}

pub open spec fn is_automine_method(m: Seq<char>) -> bool {
    m == "evm_setAutomine"@
}

pub open spec fn decode_automine(m: Seq<char>, ps: Seq<JsonValue>) -> Decoded {
    let n = ps.len();
    req_or_invalid(
        if n == 1 {
            match json_bool(ps[0]) {
                Some(b) => Some(EthRequest::EvmSetAutomine(b)),
                None => None,
            }
        } else {
            None
        },
    )
}

pub open spec fn is_address_quantity_method(m: Seq<char>) -> bool {
    m == "anvil_setBalance"@ || m == "anvil_setNonce"@
}

pub open spec fn decode_address_quantity(m: Seq<char>, ps: Seq<JsonValue>) -> Decoded {
    let n = ps.len();
    req_or_invalid(
        if n == 2 {
            match (json_address(ps[0]), json_u256(ps[1])) {
                (Some(a), Some(v)) => Some(
                    if m == "anvil_setBalance"@ {
                        EthRequest::SetBalance(a, v)
                    } else {
                        EthRequest::SetNonce(a, v)
                    },
                ),
                _ => None,
            }
        } else {
            None
        },
    )
}

pub open spec fn is_storage_write_method(m: Seq<char>) -> bool {
    m == "anvil_setStorageAt"@
}

pub open spec fn decode_storage_write(m: Seq<char>, ps: Seq<JsonValue>) -> Decoded {
    let n = ps.len();
    req_or_invalid(
        if n == 3 {
            match (json_address(ps[0]), json_u256(ps[1]), json_u256(ps[2])) {
                (Some(a), Some(s), Some(v)) => Some(EthRequest::SetStorageAt(a, s, v)),
                _ => None,
            }
        } else {
            None
        },
    )
}

pub open spec fn is_code_method(m: Seq<char>) -> bool {
    m == "anvil_setCode"@
}

pub open spec fn decode_code(m: Seq<char>, ps: Seq<JsonValue>) -> Decoded {
    let n = ps.len();
    if n == 2 {
        match (json_address(ps[0]), json_bytes(ps[1])) {
            (Some(a), Some(c)) => Decoded::SetCode(a, c),
            _ => Decoded::Failed(RequestError::InvalidParams),
        }
    } else {
        Decoded::Failed(RequestError::InvalidParams)
    }
}

pub open spec fn is_impersonate_method(m: Seq<char>) -> bool {
    m == "anvil_impersonateAccount"@
}

pub open spec fn decode_impersonate(m: Seq<char>, ps: Seq<JsonValue>) -> Decoded {
    let n = ps.len();
    req_or_invalid(
        if n == 1 {
            match json_address(ps[0]) {
                Some(a) => Some(EthRequest::ImpersonateAccount(a)),
                None => None,
            }
        } else {
            None
        },
    )
}

/// The request for method `m` with positional parameters `ps`.
pub open spec fn decode_positional(m: Seq<char>, ps: Seq<JsonValue>) -> Decoded {
    if is_none_method(m) {
        decode_none(m, ps)
    } else if is_address_block_method(m) {
        decode_address_block(m, ps)
    } else if is_storage_method(m) {
        decode_storage(m, ps)
    } else if is_block_by_hash_method(m) {
        decode_block_by_hash(m, ps)
    } else if is_block_by_number_method(m) {
        decode_block_by_number(m, ps)
    } else if is_by_hash_method(m) {
        decode_by_hash(m, ps)
    } else if is_by_number_method(m) {
        decode_by_number(m, ps)
    } else if is_hash_index_method(m) {
        decode_hash_index(m, ps)
    } else if is_number_index_method(m) {
        decode_number_index(m, ps)
    } else if is_bytes_method(m) {
        decode_bytes(m, ps)
    } else if is_object_method(m) {
        decode_object(m, ps)
    } else if is_object_block_method(m) {
        decode_object_block(m, ps)
    } else if is_submit_work_method(m) {
        decode_submit_work(m, ps)
    } else if is_submit_hashrate_method(m) {
        decode_submit_hashrate(m, ps)
    } else if is_fee_history_method(m) {
        decode_fee_history(m, ps)
    } else if is_revert_method(m) {
        decode_revert(m, ps)
    } else if is_mine_method(m) {
        decode_mine(m, ps)
    } else if is_automine_method(m) {
        decode_automine(m, ps)
    } else if is_address_quantity_method(m) {
        decode_address_quantity(m, ps)
    } else if is_storage_write_method(m) {
        decode_storage_write(m, ps)
    } else if is_code_method(m) {
        decode_code(m, ps)
    } else if is_impersonate_method(m) {
        decode_impersonate(m, ps)
    } else {
        Decoded::Failed(RequestError::MethodNotFound)
    }
}

/// The request for method `m` with parameters `params`.
pub open spec fn decode_spec(m: Seq<char>, params: JsonValue) -> Decoded {
    if !known_method(m) {
        Decoded::Failed(RequestError::MethodNotFound)
    } else {
        match positional(m, params) {
            Some(ps) => decode_positional(m, ps),
            None => Decoded::Failed(RequestError::InvalidParams),
        }
    }
}

/// `r` is what `d` describes.
pub open spec fn yields(r: Result<EthRequest, RequestError>, d: Decoded) -> bool {
    match d {
        Decoded::Request(q) => r == Ok::<EthRequest, RequestError>(q),
        Decoded::RawTransaction(b) => r matches Ok(EthRequest::EthSendRawTransaction(v)) && v@ == b,
        Decoded::LoadState(b) => r matches Ok(EthRequest::LoadState(v)) && v@ == b,
        Decoded::SetCode(a, c) => r matches Ok(EthRequest::SetCode(x, v)) && x == a && v@ == c,
        Decoded::FeeHistory(c, b, p) => r matches Ok(EthRequest::EthFeeHistory(x, y, v)) && x == c
            && y == b && v@ == p,
        Decoded::Failed(e) => r == Err::<EthRequest, RequestError>(e),
    }
}


/// The UTF-8 bytes of a text.
fn bytes_of(s: &String) -> (r: &[u8])
    ensures
        r@ == text_bytes(*s),
{
    s.as_str().as_bytes()
}

fn no_param_of(m: &str) -> (r: Option<EthRequest>)
    ensures
        r == no_param_request(m@),
{
    if text_eq(m, "eth_chainId") {
        Some(EthRequest::EthChainId)
    } else if text_eq(m, "eth_gasPrice") {
        Some(EthRequest::EthGasPrice)
    } else if text_eq(m, "eth_accounts") {
        Some(EthRequest::EthAccounts)
    } else if text_eq(m, "eth_blockNumber") {
        Some(EthRequest::EthBlockNumber)
    } else if text_eq(m, "eth_getWork") {
        Some(EthRequest::EthGetWork)
    } else if text_eq(m, "evm_snapshot") {
        Some(EthRequest::EvmSnapshot)
    } else if text_eq(m, "anvil_dumpState") {
        Some(EthRequest::DumpState)
    } else {
        None
    }
}

fn is_single_param(m: &str) -> (r: bool)
    ensures
        r == single_param(m@),
{
    text_eq(m, "eth_getBlockTransactionCountByHash") || text_eq(m, "eth_getBlockTransactionCountByNumber") || text_eq(m, "eth_getUncleCountByBlockHash") || text_eq(m, "eth_getUncleCountByBlockNumber") || text_eq(m, "eth_sendTransaction") || text_eq(m, "eth_sendRawTransaction") || text_eq(m, "eth_getTransactionByHash") || text_eq(m, "eth_getTransactionReceipt") || text_eq(m, "eth_getLogs") || text_eq(m, "evm_revert") || text_eq(m, "evm_mine") || text_eq(m, "evm_setAutomine") || text_eq(m, "anvil_impersonateAccount") || text_eq(m, "anvil_loadState")
}

fn is_multi_param(m: &str) -> (r: bool)
    ensures
        r == multi_param(m@),
{
    text_eq(m, "eth_getBalance") || text_eq(m, "eth_getStorageAt") || text_eq(m, "eth_getBlockByHash") || text_eq(m, "eth_getBlockByNumber") || text_eq(m, "eth_getTransactionCount") || text_eq(m, "eth_getCode") || text_eq(m, "eth_call") || text_eq(m, "eth_estimateGas") || text_eq(m, "eth_getTransactionByBlockHashAndIndex") || text_eq(m, "eth_getTransactionByBlockNumberAndIndex") || text_eq(m, "eth_getUncleByBlockHashAndIndex") || text_eq(m, "eth_getUncleByBlockNumberAndIndex") || text_eq(m, "eth_submitWork") || text_eq(m, "eth_submitHashrate") || text_eq(m, "eth_feeHistory") || text_eq(m, "anvil_setBalance") || text_eq(m, "anvil_setNonce") || text_eq(m, "anvil_setCode") || text_eq(m, "anvil_setStorageAt")
}

fn is_none(m: &str) -> (r: bool)
    ensures
        r == is_none_method(m@),
{
    no_param_of(m).is_some()
}

fn is_address_block(m: &str) -> (r: bool)
    ensures
        r == is_address_block_method(m@),
{
    text_eq(m, "eth_getBalance") || text_eq(m, "eth_getTransactionCount") || text_eq(m, "eth_getCode")
}

fn is_storage(m: &str) -> (r: bool)
    ensures
        r == is_storage_method(m@),
{
    text_eq(m, "eth_getStorageAt")
}

fn is_block_by_hash(m: &str) -> (r: bool)
    ensures
        r == is_block_by_hash_method(m@),
{
    text_eq(m, "eth_getBlockByHash")
}

fn is_block_by_number(m: &str) -> (r: bool)
    ensures
        r == is_block_by_number_method(m@),
{
    text_eq(m, "eth_getBlockByNumber")
}

fn is_by_hash(m: &str) -> (r: bool)
    ensures
        r == is_by_hash_method(m@),
{
    text_eq(m, "eth_getBlockTransactionCountByHash") || text_eq(m, "eth_getUncleCountByBlockHash") || text_eq(m, "eth_getTransactionByHash") || text_eq(m, "eth_getTransactionReceipt")
}

fn is_by_number(m: &str) -> (r: bool)
    ensures
        r == is_by_number_method(m@),
{
    text_eq(m, "eth_getBlockTransactionCountByNumber") || text_eq(m, "eth_getUncleCountByBlockNumber")
}

fn is_hash_index(m: &str) -> (r: bool)
    ensures
        r == is_hash_index_method(m@),
{
    text_eq(m, "eth_getTransactionByBlockHashAndIndex") || text_eq(m, "eth_getUncleByBlockHashAndIndex")
}

fn is_number_index(m: &str) -> (r: bool)
    ensures
        r == is_number_index_method(m@),
{
    text_eq(m, "eth_getTransactionByBlockNumberAndIndex") || text_eq(m, "eth_getUncleByBlockNumberAndIndex")
}

fn is_bytes(m: &str) -> (r: bool)
    ensures
        r == is_bytes_method(m@),
{
    text_eq(m, "eth_sendRawTransaction") || text_eq(m, "anvil_loadState")
}

fn is_object(m: &str) -> (r: bool)
    ensures
        r == is_object_method(m@),
{
    text_eq(m, "eth_sendTransaction") || text_eq(m, "eth_getLogs")
}

fn is_object_block(m: &str) -> (r: bool)
    ensures
        r == is_object_block_method(m@),
{
    text_eq(m, "eth_call") || text_eq(m, "eth_estimateGas")
}

fn is_submit_work(m: &str) -> (r: bool)
    ensures
        r == is_submit_work_method(m@),
{
    text_eq(m, "eth_submitWork")
}

fn is_submit_hashrate(m: &str) -> (r: bool)
    ensures
        r == is_submit_hashrate_method(m@),
{
    text_eq(m, "eth_submitHashrate")
}

fn is_fee_history(m: &str) -> (r: bool)
    ensures
        r == is_fee_history_method(m@),
{
    text_eq(m, "eth_feeHistory")
}

fn is_revert(m: &str) -> (r: bool)
    ensures
        r == is_revert_method(m@),
{
    text_eq(m, "evm_revert")
}

fn is_mine(m: &str) -> (r: bool)
    ensures
        r == is_mine_method(m@),
{
    text_eq(m, "evm_mine")
}

fn is_automine(m: &str) -> (r: bool)
    ensures
        r == is_automine_method(m@),
{
    text_eq(m, "evm_setAutomine")
}

fn is_address_quantity(m: &str) -> (r: bool)
    ensures
        r == is_address_quantity_method(m@),
{
    text_eq(m, "anvil_setBalance") || text_eq(m, "anvil_setNonce")
}

fn is_storage_write(m: &str) -> (r: bool)
    ensures
        r == is_storage_write_method(m@),
{
    text_eq(m, "anvil_setStorageAt")
}

fn is_code(m: &str) -> (r: bool)
    ensures
        r == is_code_method(m@),
{
    text_eq(m, "anvil_setCode")
}

fn is_impersonate(m: &str) -> (r: bool)
    ensures
        r == is_impersonate_method(m@),
{
    text_eq(m, "anvil_impersonateAccount")
}

fn address_of(v: &JsonValue) -> (r: Option<Address>)
    ensures
        r == json_address(*v),
{
    match v {
        JsonValue::String(s) => parse_address(bytes_of(s)),
        _ => None,
    }
}

fn u256_of(v: &JsonValue) -> (r: Option<U256>)
    ensures
        r == json_u256(*v),
{
    match v {
        JsonValue::String(s) => parse_u256(bytes_of(s)),
        _ => None,
    }
}

fn h256_of(v: &JsonValue) -> (r: Option<H256>)
    ensures
        r == json_h256(*v),
{
    match v {
        JsonValue::String(s) => parse_h256(bytes_of(s)),
        _ => None,
    }
}

fn bool_of(v: &JsonValue) -> (r: Option<bool>)
    ensures
        r == json_bool(*v),
{
    match v {
        JsonValue::Bool(b) => Some(*b),
        _ => None,
    }
}

fn hex_u64_of(v: &JsonValue) -> (r: Option<u64>)
    ensures
        r == match *v {
            JsonValue::String(s) => spec_hex_u64(text_bytes(s)),
            _ => None,
        },
{
    match v {
        JsonValue::String(s) => parse_hex_u64(bytes_of(s)),
        _ => None,
    }
}

fn bytes_param_of(v: &JsonValue) -> (r: Option<Vec<u8>>)
    ensures
        match r {
            Some(b) => json_bytes(*v) == Some(b@),
            None => json_bytes(*v) is None,
        },
{
    match v {
        JsonValue::String(s) => parse_bytes(bytes_of(s)),
        _ => None,
    }
}

fn block_of(v: &JsonValue) -> (r: Option<BlockNumber>)
    ensures
        r == json_block(*v),
{
    match v {
        JsonValue::String(s) => {
            if text_eq(s.as_str(), "latest") {
                Some(BlockNumber::Latest)
            } else if text_eq(s.as_str(), "earliest") {
                Some(BlockNumber::Earliest)
            } else if text_eq(s.as_str(), "pending") {
                Some(BlockNumber::Pending)
            } else if text_eq(s.as_str(), "safe") {
                Some(BlockNumber::Safe)
            } else if text_eq(s.as_str(), "finalized") {
                Some(BlockNumber::Finalized)
            } else {
                match parse_hex_u64(bytes_of(s)) {
                    Some(n) => Some(BlockNumber::Number(n)),
                    None => None,
                }
            }
        },
        _ => None,
    }
}

fn opt_block_of(ps: &Vec<JsonValue>, i: usize) -> (r: Option<Option<BlockNumber>>)
    ensures
        r == json_opt_block(ps@, i as int),
{
    if i >= ps.len() {
        return Some(None);
    }
    match &ps[i] {
        JsonValue::Null => Some(None),
        v => match block_of(v) {
            Some(b) => Some(Some(b)),
            None => None,
        },
    }
}

fn index_of(v: &JsonValue) -> (r: Option<Index>)
    ensures
        r == json_index(*v),
{
    let n = match v {
        JsonValue::Number(JsonNumber::Unsigned(n)) => Some(*n),
        JsonValue::String(s) => {
            let b = bytes_of(s);
            if b.len() >= 2 && b[0] == 0x30 && b[1] == 0x78 {
                parse_hex_u64(b)
            } else {
                parse_dec_u64(b)
            }
        },
        _ => None,
    };
    match n {
        Some(n) => if n as u128 <= usize::MAX as u128 {
            Some(Index(n as usize))
        } else {
            None
        },
        None => None,
    }
}

fn opt_u64_of(v: &JsonValue) -> (r: Option<Option<u64>>)
    ensures
        r == json_opt_u64(*v),
{
    match v {
        JsonValue::Null => Some(None),
        JsonValue::Number(JsonNumber::Unsigned(n)) => Some(Some(*n)),
        _ => None,
    }
}

fn field_of(fields: &Vec<(String, JsonValue)>, key: &str) -> (r: Option<usize>)
    ensures
        match r {
            Some(i) => i < fields@.len() && json_field(fields@, key@) == Some(fields@[i as int].1),
            None => json_field(fields@, key@) is None,
        },
{
    let mut i: usize = 0;
    assert(fields@.skip(0) =~= fields@);
    while i < fields.len()
        invariant
            i <= fields@.len(),
            json_field(fields@, key@) == json_field(fields@.skip(i as int), key@),
        decreases fields@.len() - i,
    {
        let ghost rest = fields@.skip(i as int);
        assert(rest[0] == fields@[i as int]);
        assert(rest.drop_first() =~= fields@.skip(i + 1));
        if text_eq(fields[i].0.as_str(), key) {
            return Some(i);
        }
        i = i + 1;
    }
    None
}

fn mine_options_of(v: &JsonValue) -> (r: Option<EvmMineOptions>)
    ensures
        r == json_mine_options(*v),
{
    match v {
        JsonValue::Object(fields) => {
            let t = match field_of(fields, "timestamp") {
                Some(i) => opt_u64_of(&fields[i].1),
                None => Some(None),
            };
            let b = match field_of(fields, "blocks") {
                Some(i) => opt_u64_of(&fields[i].1),
                None => Some(None),
            };
            match (t, b) {
                (Some(timestamp), Some(blocks)) => Some(EvmMineOptions::Options { timestamp, blocks }),
                _ => None,
            }
        },
        _ => match opt_u64_of(v) {
            Some(t) => Some(EvmMineOptions::Timestamp(t)),
            None => None,
        },
    }
}

fn block_count_of(v: &JsonValue) -> (r: Option<U256>)
    ensures
        r == json_block_count(*v),
{
    match v {
        JsonValue::Number(JsonNumber::Unsigned(n)) => Some(U256 { high: 0, low: *n as u128 }),
        _ => u256_of(v),
    }
}

fn all_numbers_of(v: &Vec<JsonValue>) -> (r: bool)
    ensures
        r == all_numbers(v@),
{
    let mut i: usize = 0;
    while i < v.len()
        invariant
            i <= v@.len(),
            forall|j: int| 0 <= j < i ==> (#[trigger] v@[j]) is Number,
        decreases v@.len() - i,
    {
        match &v[i] {
            JsonValue::Number(_) => {},
            _ => {
                return false;
            },
        }
        i = i + 1;
    }
    true
}

fn invalid() -> (r: Result<EthRequest, RequestError>)
    ensures
        r == Err::<EthRequest, RequestError>(RequestError::InvalidParams),
{
    Err(RequestError::InvalidParams)
}


fn decode_none_exec(m: &str, ps: Vec<JsonValue>) -> (r: Result<EthRequest, RequestError>)
    requires
        is_none_method(m@),
    ensures
        yields(r, decode_none(m@, ps@)),
{
    if ps.len() == 0 {
        match no_param_of(m) {
            Some(q) => Ok(q),
            None => invalid(),
        }
    } else {
        invalid()
    }
}

fn decode_address_block_exec(m: &str, ps: Vec<JsonValue>) -> (r: Result<EthRequest, RequestError>)
    ensures
        yields(r, decode_address_block(m@, ps@)),
{
    if 1 <= ps.len() && ps.len() <= 2 {
        match (address_of(&ps[0]), opt_block_of(&ps, 1)) {
            (Some(a), Some(b)) => Ok(
                if text_eq(m, "eth_getBalance") {
                    EthRequest::EthGetBalance(a, b)
                } else if text_eq(m, "eth_getTransactionCount") {
                    EthRequest::EthGetTransactionCount(a, b)
                } else {
                    EthRequest::EthGetCodeAt(a, b)
                },
            ),
            _ => invalid(),
        }
    } else {
        invalid()
    }
}

fn decode_storage_exec(m: &str, ps: Vec<JsonValue>) -> (r: Result<EthRequest, RequestError>)
    ensures
        yields(r, decode_storage(m@, ps@)),
{
    if 2 <= ps.len() && ps.len() <= 3 {
        match (address_of(&ps[0]), u256_of(&ps[1]), opt_block_of(&ps, 2)) {
            (Some(a), Some(s), Some(b)) => Ok(EthRequest::EthGetStorageAt(a, s, b)),
            _ => invalid(),
        }
    } else {
        invalid()
    }
}

fn decode_block_by_hash_exec(m: &str, ps: Vec<JsonValue>) -> (r: Result<EthRequest, RequestError>)
    ensures
        yields(r, decode_block_by_hash(m@, ps@)),
{
    if ps.len() == 2 {
        match (h256_of(&ps[0]), bool_of(&ps[1])) {
            (Some(h), Some(f)) => Ok(EthRequest::EthGetBlockByHash(h, f)),
            _ => invalid(),
        }
    } else {
        invalid()
    }
}

fn decode_block_by_number_exec(m: &str, ps: Vec<JsonValue>) -> (r: Result<EthRequest, RequestError>)
    ensures
        yields(r, decode_block_by_number(m@, ps@)),
{
    if ps.len() == 2 {
        match (block_of(&ps[0]), bool_of(&ps[1])) {
            (Some(b), Some(f)) => Ok(EthRequest::EthGetBlockByNumber(b, f)),
            _ => invalid(),
        }
    } else {
        invalid()
    }
}

fn decode_by_hash_exec(m: &str, ps: Vec<JsonValue>) -> (r: Result<EthRequest, RequestError>)
    ensures
        yields(r, decode_by_hash(m@, ps@)),
{
    if ps.len() == 1 {
        match h256_of(&ps[0]) {
            Some(h) => Ok(
                if text_eq(m, "eth_getBlockTransactionCountByHash") {
                    EthRequest::EthGetTransactionCountByHash(h)
                } else if text_eq(m, "eth_getUncleCountByBlockHash") {
                    EthRequest::EthGetUnclesCountByHash(h)
                } else if text_eq(m, "eth_getTransactionByHash") {
                    EthRequest::EthGetTransactionByHash(h)
                } else {
                    EthRequest::EthGetTransactionReceipt(h)
                },
            ),
            None => invalid(),
        }
    } else {
        invalid()
    }
}

fn decode_by_number_exec(m: &str, ps: Vec<JsonValue>) -> (r: Result<EthRequest, RequestError>)
    ensures
        yields(r, decode_by_number(m@, ps@)),
{
    if ps.len() == 1 {
        match block_of(&ps[0]) {
            Some(b) => Ok(
                if text_eq(m, "eth_getBlockTransactionCountByNumber") {
                    EthRequest::EthGetTransactionCountByNumber(b)
                } else {
                    EthRequest::EthGetUnclesCountByNumber(b)
                },
            ),
            None => invalid(),
        }
    } else {
        invalid()
    }
}

fn decode_hash_index_exec(m: &str, ps: Vec<JsonValue>) -> (r: Result<EthRequest, RequestError>)
    ensures
        yields(r, decode_hash_index(m@, ps@)),
{
    if ps.len() == 2 {
        match (h256_of(&ps[0]), index_of(&ps[1])) {
            (Some(h), Some(i)) => Ok(
                if text_eq(m, "eth_getTransactionByBlockHashAndIndex") {
                    EthRequest::EthGetTransactionByBlockHashAndIndex(h, i)
                } else {
                    EthRequest::EthGetUncleByBlockHashAndIndex(h, i)
                },
            ),
            _ => invalid(),
        }
    } else {
        invalid()
    }
}

fn decode_number_index_exec(m: &str, ps: Vec<JsonValue>) -> (r: Result<EthRequest, RequestError>)
    ensures
        yields(r, decode_number_index(m@, ps@)),
{
    if ps.len() == 2 {
        match (block_of(&ps[0]), index_of(&ps[1])) {
            (Some(b), Some(i)) => Ok(
                if text_eq(m, "eth_getTransactionByBlockNumberAndIndex") {
                    EthRequest::EthGetTransactionByBlockNumberAndIndex(b, i)
                } else {
                    EthRequest::EthGetUncleByBlockNumberAndIndex(b, i)
                },
            ),
            _ => invalid(),
        }
    } else {
        invalid()
    }
}

fn decode_bytes_exec(m: &str, ps: Vec<JsonValue>) -> (r: Result<EthRequest, RequestError>)
    ensures
        yields(r, decode_bytes(m@, ps@)),
{
    if ps.len() == 1 {
        match bytes_param_of(&ps[0]) {
            Some(b) => Ok(
                if text_eq(m, "eth_sendRawTransaction") {
                    EthRequest::EthSendRawTransaction(b)
                } else {
                    EthRequest::LoadState(b)
                },
            ),
            None => invalid(),
        }
    } else {
        invalid()
    }
}

fn decode_object_exec(m: &str, ps: Vec<JsonValue>) -> (r: Result<EthRequest, RequestError>)
    ensures
        yields(r, decode_object(m@, ps@)),
{
    let mut ps = ps;
    if ps.len() == 1 {
        let v = ps.remove(0);
        match v {
            JsonValue::Object(_) => Ok(
                if text_eq(m, "eth_sendTransaction") {
                    EthRequest::EthSendTransaction(v)
                } else {
                    EthRequest::EthGetLogs(v)
                },
            ),
            _ => invalid(),
        }
    } else {
        invalid()
    }
}

fn decode_object_block_exec(m: &str, ps: Vec<JsonValue>) -> (r: Result<EthRequest, RequestError>)
    ensures
        yields(r, decode_object_block(m@, ps@)),
{
    let mut ps = ps;
    if 1 <= ps.len() && ps.len() <= 2 {
        let b = opt_block_of(&ps, 1);
        let v = ps.remove(0);
        match (v, b) {
            (JsonValue::Object(f), Some(b)) => {
                let v = JsonValue::Object(f);
                Ok(
                    if text_eq(m, "eth_call") {
                        EthRequest::EthCall(v, b)
                    } else {
                        EthRequest::EthEstimateGas(v, b)
                    },
                )
            },
            _ => invalid(),
        }
    } else {
        invalid()
    }
}

fn decode_submit_work_exec(m: &str, ps: Vec<JsonValue>) -> (r: Result<EthRequest, RequestError>)
    ensures
        yields(r, decode_submit_work(m@, ps@)),
{
    if ps.len() == 3 {
        match (hex_u64_of(&ps[0]), h256_of(&ps[1]), h256_of(&ps[2])) {
            (Some(w), Some(a), Some(b)) => Ok(EthRequest::EthSubmitWork(w, a, b)),
            _ => invalid(),
        }
    } else {
        invalid()
    }
}

fn decode_submit_hashrate_exec(m: &str, ps: Vec<JsonValue>) -> (r: Result<EthRequest, RequestError>)
    ensures
        yields(r, decode_submit_hashrate(m@, ps@)),
{
    if ps.len() == 2 {
        match (u256_of(&ps[0]), h256_of(&ps[1])) {
            (Some(x), Some(h)) => Ok(EthRequest::EthSubmitHashRate(x, h)),
            _ => invalid(),
        }
    } else {
        invalid()
    }
}

fn decode_fee_history_exec(m: &str, ps: Vec<JsonValue>) -> (r: Result<EthRequest, RequestError>)
    ensures
        yields(r, decode_fee_history(m@, ps@)),
{
    let mut ps = ps;
    if 2 <= ps.len() && ps.len() <= 3 {
        match (block_count_of(&ps[0]), block_of(&ps[1])) {
            (Some(c), Some(b)) => {
                if ps.len() == 2 {
                    let v: Vec<JsonValue> = Vec::new();
                    assert(v@ =~= Seq::<JsonValue>::empty());
                    Ok(EthRequest::EthFeeHistory(c, b, v))
                } else {
                    let p = ps.remove(2);
                    match p {
                        JsonValue::Array(v) => if all_numbers_of(&v) {
                            Ok(EthRequest::EthFeeHistory(c, b, v))
                        } else {
                            invalid()
                        },
                        _ => invalid(),
                    }
                }
            },
            _ => invalid(),
        }
    } else {
        invalid()
    }
}

fn decode_revert_exec(m: &str, ps: Vec<JsonValue>) -> (r: Result<EthRequest, RequestError>)
    ensures
        yields(r, decode_revert(m@, ps@)),
{
    if ps.len() == 1 {
        match u256_of(&ps[0]) {
            Some(id) => Ok(EthRequest::EvmRevert(id)),
            None => invalid(),
        }
    } else {
        invalid()
    }
}

fn decode_mine_exec(m: &str, ps: Vec<JsonValue>) -> (r: Result<EthRequest, RequestError>)
    ensures
        yields(r, decode_mine(m@, ps@)),
{
    if ps.len() == 0 {
        return Ok(EthRequest::EvmMine(None));
    }
    if ps.len() == 1 {
        match &ps[0] {
            JsonValue::Null => Ok(EthRequest::EvmMine(None)),
            v => match mine_options_of(v) {
                Some(o) => Ok(EthRequest::EvmMine(Some(o))),
                None => invalid(),
            },
        }
    } else {
        invalid()
    }
}

fn decode_automine_exec(m: &str, ps: Vec<JsonValue>) -> (r: Result<EthRequest, RequestError>)
    ensures
        yields(r, decode_automine(m@, ps@)),
{
    if ps.len() == 1 {
        match bool_of(&ps[0]) {
            Some(b) => Ok(EthRequest::EvmSetAutomine(b)),
            None => invalid(),
        }
    } else {
        invalid()
    }
}

fn decode_address_quantity_exec(m: &str, ps: Vec<JsonValue>) -> (r: Result<EthRequest, RequestError>)
    ensures
        yields(r, decode_address_quantity(m@, ps@)),
{
    if ps.len() == 2 {
        match (address_of(&ps[0]), u256_of(&ps[1])) {
            (Some(a), Some(v)) => Ok(
                if text_eq(m, "anvil_setBalance") {
                    EthRequest::SetBalance(a, v)
                } else {
                    EthRequest::SetNonce(a, v)
                },
            ),
            _ => invalid(),
        }
    } else {
        invalid()
    }
}

fn decode_storage_write_exec(m: &str, ps: Vec<JsonValue>) -> (r: Result<EthRequest, RequestError>)
    ensures
        yields(r, decode_storage_write(m@, ps@)),
{
    if ps.len() == 3 {
        match (address_of(&ps[0]), u256_of(&ps[1]), u256_of(&ps[2])) {
            (Some(a), Some(s), Some(v)) => Ok(EthRequest::SetStorageAt(a, s, v)),
            _ => invalid(),
        }
    } else {
        invalid()
    }
}

fn decode_code_exec(m: &str, ps: Vec<JsonValue>) -> (r: Result<EthRequest, RequestError>)
    ensures
        yields(r, decode_code(m@, ps@)),
{
    if ps.len() == 2 {
        match (address_of(&ps[0]), bytes_param_of(&ps[1])) {
            (Some(a), Some(c)) => Ok(EthRequest::SetCode(a, c)),
            _ => invalid(),
        }
    } else {
        invalid()
    }
}

fn decode_impersonate_exec(m: &str, ps: Vec<JsonValue>) -> (r: Result<EthRequest, RequestError>)
    ensures
        yields(r, decode_impersonate(m@, ps@)),
{
    if ps.len() == 1 {
        match address_of(&ps[0]) {
            Some(a) => Ok(EthRequest::ImpersonateAccount(a)),
            None => invalid(),
        }
    } else {
        invalid()
    }
}

impl EthRequest {
    /// Decodes the envelope of method `method` with parameters `params`.
    ///
    /// An unknown method is `MethodNotFound`; parameters that do not fit the
    /// method are `InvalidParams`.
    pub fn decode(method: &str, params: JsonValue) -> (r: Result<EthRequest, RequestError>)
        ensures
            yields(r, decode_spec(method@, params)),
    {
        let m = method;
        if !(no_param_of(m).is_some() || is_single_param(m) || is_multi_param(m)) {
            return Err(RequestError::MethodNotFound);
        }
        let ghost p = params;
        let single = is_single_param(m);
        let ps = match params {
            JsonValue::Array(v) => v,
            JsonValue::Null if !single => Vec::new(),
            other => {
                if single {
                    let mut v = Vec::new();
                    v.push(other);
                    v
                } else {
                    return Err(RequestError::InvalidParams);
                }
            },
        };
        assert(positional(m@, p) == Some(ps@));
        if is_none(m) {
            decode_none_exec(m, ps)
        } else if is_address_block(m) {
            decode_address_block_exec(m, ps)
        } else if is_storage(m) {
            decode_storage_exec(m, ps)
        } else if is_block_by_hash(m) {
            decode_block_by_hash_exec(m, ps)
        } else if is_block_by_number(m) {
            decode_block_by_number_exec(m, ps)
        } else if is_by_hash(m) {
            decode_by_hash_exec(m, ps)
        } else if is_by_number(m) {
            decode_by_number_exec(m, ps)
        } else if is_hash_index(m) {
            decode_hash_index_exec(m, ps)
        } else if is_number_index(m) {
            decode_number_index_exec(m, ps)
        } else if is_bytes(m) {
            decode_bytes_exec(m, ps)
        } else if is_object(m) {
            decode_object_exec(m, ps)
        } else if is_object_block(m) {
            decode_object_block_exec(m, ps)
        } else if is_submit_work(m) {
            decode_submit_work_exec(m, ps)
        } else if is_submit_hashrate(m) {
            decode_submit_hashrate_exec(m, ps)
        } else if is_fee_history(m) {
            decode_fee_history_exec(m, ps)
        } else if is_revert(m) {
            decode_revert_exec(m, ps)
        } else if is_mine(m) {
            decode_mine_exec(m, ps)
        } else if is_automine(m) {
            decode_automine_exec(m, ps)
        } else if is_address_quantity(m) {
            decode_address_quantity_exec(m, ps)
        } else if is_storage_write(m) {
            decode_storage_write_exec(m, ps)
        } else if is_code(m) {
            decode_code_exec(m, ps)
        } else if is_impersonate(m) {
            decode_impersonate_exec(m, ps)
        } else {
            Err(RequestError::MethodNotFound)
        }
    }
}

/// Envelope parity: for a method that takes one parameter, the parameter
/// wrapped in a one-element array and the bare parameter decode alike.
pub proof fn lemma_single_param_parity(m: Seq<char>, x: JsonValue, wrapped: Vec<JsonValue>)
    requires
        single_param(m),
        !(x is Array),
        wrapped@ == seq![x],
    ensures
        decode_spec(m, JsonValue::Array(wrapped)) == decode_spec(m, x),
{
}


/// Decodes a batch of envelopes, each on its own, in order. An empty batch is
/// an invalid request.
pub fn decode_batch(calls: Vec<(String, JsonValue)>) -> (r: Result<
    Vec<Result<EthRequest, RequestError>>,
    RequestError,
>)
    ensures
        calls@.len() == 0 ==> r == Err::<Vec<Result<EthRequest, RequestError>>, RequestError>(
            RequestError::InvalidRequest,
        ),
        calls@.len() > 0 ==> (r matches Ok(out) && out@.len() == calls@.len() && forall|i: int|
            0 <= i < calls@.len() ==> yields(
                #[trigger] out@[i],
                decode_spec(calls@[i].0@, calls@[i].1),
            )),
{
    if calls.len() == 0 {
        return Err(RequestError::InvalidRequest);
    }
    let mut rest = calls;
    let ghost all = rest@;
    let total = rest.len();
    let mut out: Vec<Result<EthRequest, RequestError>> = Vec::new();
    let mut k: usize = 0;
    while rest.len() > 0
        invariant
            k + rest@.len() == all.len(),
            all.len() == total,
            rest@ == all.skip(k as int),
            out@.len() == k,
            forall|i: int| 0 <= i < k ==> yields(#[trigger] out@[i], decode_spec(all[i].0@, all[i].1)),
        decreases rest@.len(),
    {
        let (method, params) = rest.remove(0);
        assert((method, params) == all[k as int]);
        out.push(EthRequest::decode(method.as_str(), params));
        k = k + 1;
        assert(rest@ =~= all.skip(k as int));
    }
    Ok(out)
}


/// The first parameter of `eth_feeHistory` reads the same as a JSON integer
/// and as a quantity whose hex digits spell it; other JSON kinds are refused.
pub proof fn lemma_block_count_forms(n: u64, s: String)
    requires
        crate::hex::has_0x(text_bytes(s)),
        1 <= text_bytes(s).skip(2).len() <= 32,
        crate::hex::hex_number(text_bytes(s).skip(2)) == Some(n as nat),
    ensures
        json_block_count(JsonValue::Number(JsonNumber::Unsigned(n))) == Some(U256 { high: 0, low: n as u128 }),
        json_block_count(JsonValue::String(s)) == Some(U256 { high: 0, low: n as u128 }),
        json_block_count(JsonValue::Null) is None,
        json_block_count(JsonValue::Bool(true)) is None && json_block_count(JsonValue::Bool(false)) is None,
{
}

} // verus!
