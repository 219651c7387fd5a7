use vstd::prelude::*;

verus! {

/// Chain id of Ethereum mainnet.
pub const MAINNET_CHAIN_ID: u64 = 1;

/// Chain id of the Sepolia test network.
pub const SEPOLIA_CHAIN_ID: u64 = 11155111;

/// Chain id of Arbitrum One.
pub const ARBITRUM_CHAIN_ID: u64 = 42161;

/// Chain id of Base mainnet.
pub const BASE_CHAIN_ID: u64 = 8453;

/// Chain id of Optimism mainnet.
pub const OPTIMISM_CHAIN_ID: u64 = 10;

/// An EVM chain, identified by its chain id.
#[derive(Clone, Copy, Debug, Eq, PartialEq, Structural)]
pub struct EthereumNetwork(pub u64);

impl From<u64> for EthereumNetwork {
    fn from(value: u64) -> (network: Self) {
        EthereumNetwork(value)
    }
}

impl vstd::std_specs::convert::FromSpecImpl<u64> for EthereumNetwork {
    open spec fn obeys_from_spec() -> bool {
        true
    }

    open spec fn from_spec(value: u64) -> Self {
        EthereumNetwork(value)
    }
}

impl EthereumNetwork {
    pub fn new(chain_id: u64) -> (network: Self)
        ensures
            network.0 == chain_id,
    {
        EthereumNetwork(chain_id)
    }

    pub fn chain_id(&self) -> (id: u64)
        ensures
            id == self.0,
    {
        self.0
    }
}

} // verus!
