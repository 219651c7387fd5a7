//! Multi-provider Ethereum JSON-RPC aggregation and reduction engine.
//!
//! A single logical query is fanned out to several independent RPC
//! providers; the per-provider outcomes are collected into a non-empty,
//! provider-ordered ballot ([`results::MultiCallResults`]) and reduced to a
//! single trustworthy answer by explicit consistency rules: unanimous
//! equality, or a strict majority grouped by a projection key.  Errors from
//! different providers are folded together only when a dedicated consistency
//! predicate declares them the same failure.

pub mod client;
pub mod error;
pub mod fee_history;
pub mod majority;
pub mod network;
pub mod reduce;
pub mod results;
pub mod sequential;

pub use network::EthereumNetwork;
