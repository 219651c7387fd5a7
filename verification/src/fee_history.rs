use vstd::prelude::*;

use crate::majority::Keyed;

verus! {

/// The part of an `eth_feeHistory` response that the reducers read: the
/// anchor block and the per-block base fees.  Histories from honest
/// providers share the anchor even when the rest of the payload differs,
/// so the anchor is the majority key.
#[derive(Clone, Debug, Eq, PartialEq)]
pub struct FeeHistory {
    /// Lowest block of the returned range.
    pub oldest_block: u64,
    /// Per-block base fee, in wei per gas.
    pub base_fee_per_gas: Vec<u64>,
}

impl Keyed for FeeHistory {
    open spec fn spec_key(&self) -> u64 {
        self.oldest_block
    }

    fn key(&self) -> (k: u64) {
        self.oldest_block
    }
}

} // verus!
