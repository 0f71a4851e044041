//! A local canonical-chain tracker for a Bitcoin-like proof-of-work chain.
//!
//! The crate keeps a process-local view of the best chain as a persistent,
//! structurally shared list of `(height, hash)` checkpoints, merges external
//! chain updates into that view, and derives confirmation status and
//! spendability of transaction outputs from a chain tip.

use vstd::prelude::*;

pub mod block_map;
pub mod chain_data;
pub mod host;
pub mod local_chain;

pub use chain_data::Anchor;
pub use chain_data::BlockId;
pub use chain_data::ChainPosition;
pub use chain_data::ConfirmationHeightAnchor;
pub use chain_data::ConfirmationTime;
pub use chain_data::ConfirmationTimeHeightAnchor;
pub use chain_data::FullTxOut;

verus! {

/// The number of confirmations a coinbase output must have before it may be
/// spent.
pub const COINBASE_MATURITY: u32 = 100;

/// An oracle that answers whether a block is in the best chain, against a
/// provided chain tip.
pub trait ChainOracle {
    /// The error type of the oracle.
    type Error;

    /// Whether `block` is in the chain whose tip is `chain_tip`; `None` when
    /// the oracle cannot answer.
    fn is_block_in_chain(&self, block: BlockId, chain_tip: BlockId) -> Result<
        Option<bool>,
        Self::Error,
    >;

    /// The tip of the best chain.
    fn get_chain_tip(&self) -> Result<BlockId, Self::Error>;
}

} // verus!
