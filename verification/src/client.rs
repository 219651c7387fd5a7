use vstd::prelude::*;

use crate::error::ProviderError;
use crate::network::{EthereumNetwork, SEPOLIA_CHAIN_ID};
use crate::results::ProviderId;

verus! {

/// Allowance for HTTP headers on top of a payload estimate.
pub const HEADER_SIZE_LIMIT: u64 = 2 * 1024;

/// Base response-size estimate of `eth_getLogs`, without the header allowance.
pub const GET_LOGS_SIZE_ESTIMATE: u64 = 1024;

/// Base response-size estimate of `eth_getTransactionReceipt`.
pub const TRANSACTION_RECEIPT_SIZE_ESTIMATE: u64 = 700;

/// Base response-size estimate of `eth_feeHistory`; a typical response is
/// slightly above 300 bytes.
pub const FEE_HISTORY_SIZE_ESTIMATE: u64 = 512;

/// Base response-size estimate of `eth_sendRawTransaction`.
pub const SEND_RAW_TRANSACTION_SIZE_ESTIMATE: u64 = 256;

/// Base response-size estimate of `eth_getTransactionCount`.
pub const TRANSACTION_COUNT_SIZE_ESTIMATE: u64 = 50;

/// Expected size of a Sepolia block.
pub const SEPOLIA_BLOCK_SIZE_ESTIMATE: u64 = 12 * 1024;

/// Expected size of a mainnet block, also used for unknown chains.
pub const MAINNET_BLOCK_SIZE_ESTIMATE: u64 = 24 * 1024;

/// Client configuration: an optional override that replaces every
/// per-operation response-size estimate.
#[derive(Clone, Copy, Debug, Eq, PartialEq)]
pub struct RpcConfig {
    pub response_size_estimate: Option<u64>,
}

impl Default for RpcConfig {
    fn default() -> (config: Self)
        ensures
            config.response_size_estimate is None,
    {
        RpcConfig { response_size_estimate: None }
    }
}

/// A multi-provider client: the chain, a non-empty provider list and the
/// configuration, immutable after construction.
#[derive(Clone, Debug, Eq, PartialEq)]
pub struct EthRpcClient {
    pub chain: EthereumNetwork,
    pub providers: Vec<ProviderId>,
    pub config: RpcConfig,
}

impl EthRpcClient {
    /// Builds a client; an empty provider list is a configuration error,
    /// surfaced eagerly.
    pub fn new(chain: EthereumNetwork, providers: Vec<ProviderId>, config: Option<RpcConfig>) -> (r:
        Result<Self, ProviderError>)
        ensures
            r is Err <==> providers@.len() == 0,
            r is Err ==> r->Err_0 == ProviderError::ProviderNotFound,
            r is Ok ==> r->Ok_0.chain == chain && r->Ok_0.providers@ == providers@,
            r is Ok ==> r->Ok_0.config == (match config {
                Some(c) => c,
                None => RpcConfig { response_size_estimate: None },
            }),
    {
        if providers.is_empty() {
            return Err(ProviderError::ProviderNotFound);
        }
        let config = match config {
            Some(c) => c,
            None => RpcConfig::default(),
        };
        Ok(EthRpcClient { chain, providers, config })
    }

    /// The effective response-size estimate: the configured override when
    /// there is one, else the per-operation estimate given.
    pub fn response_size_estimate(&self, estimate: u64) -> (effective: u64)
        ensures
            effective == (match self.config.response_size_estimate {
                Some(o) => o,
                None => estimate,
            }),
    {
        match self.config.response_size_estimate {
            Some(o) => o,
            None => estimate,
        }
    }

    /// The expected size of one block on this client's chain: Sepolia
    /// blocks are smaller, and an unknown chain is treated like mainnet.
    pub fn expected_block_size(&self) -> (size: u64)
        ensures
            self.chain.0 == SEPOLIA_CHAIN_ID ==> size == SEPOLIA_BLOCK_SIZE_ESTIMATE,
            self.chain.0 != SEPOLIA_CHAIN_ID ==> size == MAINNET_BLOCK_SIZE_ESTIMATE,
    {
        if self.chain.0 == SEPOLIA_CHAIN_ID {
            SEPOLIA_BLOCK_SIZE_ESTIMATE
        } else {
            MAINNET_BLOCK_SIZE_ESTIMATE
        }
    }
}

} // verus!
