//! Core of a local Ethereum development node: the wire codec that frames
//! JSON-RPC messages, the request envelope and the handlers of state
//! requests, the layered state store with snapshots, the transaction pool and
//! the miner that drains it, the dev signer's signature layout, and the
//! pub/sub sessions that fan events out to connections.

pub mod codec;
pub mod types;
pub mod state;
pub mod pool;
pub mod miner;
pub mod hex;
pub mod request;
pub mod utils;
pub mod caching;
pub mod signer;
pub mod pubsub;
pub mod encode;
pub mod dispatch;
