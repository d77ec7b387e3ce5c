//! A verified core for a small Ethereum execution-client scaffold: primitive
//! block and transaction types, an account state store, a gas-metered block
//! execution engine, peer management, header/body sync orchestration, the
//! JSON-RPC method dispatch rules and the conformance fixture harness.

pub mod keys;

pub mod types;
pub mod state;
pub mod digest;
pub mod execution;
pub mod peer;
pub mod sync;
pub mod text;
pub mod config;
pub mod rpc;
pub mod vectors;
pub mod baseline;
pub mod reports;
