//! Value types describing where chain data sits in the chain: block
//! references, anchors, confirmation positions, and full transaction outputs.

use crate::COINBASE_MATURITY;
use vstd::prelude::*;

verus! {

/// A reference to a block in the canonical chain.
#[derive(Debug, Clone, Copy, Eq, Hash, PartialOrd, Ord)]
pub struct BlockId {
    /// The height of the block.
    pub height: u32,
    /// The hash of the block.
    pub hash: bitcoin::BlockHash,
}

impl PartialEq for BlockId {
    fn eq(&self, other: &Self) -> bool {
        self.height == other.height && self.hash == other.hash
    }
}

impl vstd::std_specs::cmp::PartialEqSpecImpl for BlockId {
    open spec fn obeys_eq_spec() -> bool {
        true
    }

    open spec fn eq_spec(&self, other: &Self) -> bool {
        *self == *other
    }
}

impl From<(u32, bitcoin::BlockHash)> for BlockId {
    fn from(pair: (u32, bitcoin::BlockHash)) -> Self {
        BlockId { height: pair.0, hash: pair.1 }
    }
}

impl vstd::std_specs::convert::FromSpecImpl<(u32, bitcoin::BlockHash)> for BlockId {
    open spec fn obeys_from_spec() -> bool {
        true
    }

    open spec fn from_spec(pair: (u32, bitcoin::BlockHash)) -> Self {
        BlockId { height: pair.0, hash: pair.1 }
    }
}

impl From<BlockId> for (u32, bitcoin::BlockHash) {
    fn from(block_id: BlockId) -> Self {
        (block_id.height, block_id.hash)
    }
}

impl vstd::std_specs::convert::FromSpecImpl<BlockId> for (u32, bitcoin::BlockHash) {
    open spec fn obeys_from_spec() -> bool {
        true
    }

    open spec fn from_spec(block_id: BlockId) -> Self {
        (block_id.height, block_id.hash)
    }
}

impl From<(&u32, &bitcoin::BlockHash)> for BlockId {
    fn from(pair: (&u32, &bitcoin::BlockHash)) -> Self {
        BlockId { height: *pair.0, hash: *pair.1 }
    }
}

impl vstd::std_specs::convert::FromSpecImpl<(&u32, &bitcoin::BlockHash)> for BlockId {
    open spec fn obeys_from_spec() -> bool {
        true
    }

    open spec fn from_spec(pair: (&u32, &bitcoin::BlockHash)) -> Self {
        BlockId { height: *pair.0, hash: *pair.1 }
    }
}

/// A capability that names a block known to be in the best chain together
/// with an upper bound on the confirmation height of the data anchored to it.
pub trait Anchor: Sized {
    /// The anchor block, as a specification-level value.
    spec fn spec_anchor_block(&self) -> BlockId;

    /// The confirmation-height upper bound, as a specification-level value.
    spec fn spec_confirmation_height_upper_bound(&self) -> u32;

    /// Returns the block that the chain data is anchored to.
    fn anchor_block(&self) -> (r: BlockId)
        ensures
            r == self.spec_anchor_block(),
    ;

    /// Returns an upper bound on the height the chain data is confirmed at.
    fn confirmation_height_upper_bound(&self) -> (r: u32)
        ensures
            r == self.spec_confirmation_height_upper_bound(),
    ;
}

impl Anchor for BlockId {
    open spec fn spec_anchor_block(&self) -> BlockId {
        *self
    }

    open spec fn spec_confirmation_height_upper_bound(&self) -> u32 {
        self.height
    }

    fn anchor_block(&self) -> BlockId {
        *self
    }

    fn confirmation_height_upper_bound(&self) -> u32 {
        self.height
    }
}

/// An [`Anchor`] that also records the exact confirmation height of the
/// transaction; the confirmation block and the anchor block may differ.
#[derive(Debug, Clone, Copy, PartialEq)]
pub struct ConfirmationHeightAnchor {
    /// The anchor block.
    pub anchor_block: BlockId,
    /// The exact confirmation height of the transaction; never larger than
    /// the height of the anchor block.
    pub confirmation_height: u32,
}

impl Anchor for ConfirmationHeightAnchor {
    open spec fn spec_anchor_block(&self) -> BlockId {
        self.anchor_block
    }

    open spec fn spec_confirmation_height_upper_bound(&self) -> u32 {
        self.confirmation_height
    }

    fn anchor_block(&self) -> BlockId {
        self.anchor_block
    }

    fn confirmation_height_upper_bound(&self) -> u32 {
        self.confirmation_height
    }
}

/// An [`Anchor`] that records the exact confirmation height and the
/// confirmation time of the transaction.
#[derive(Debug, Clone, Copy, PartialEq)]
pub struct ConfirmationTimeHeightAnchor {
    /// The anchor block.
    pub anchor_block: BlockId,
    /// The confirmation height of the chain data being anchored.
    pub confirmation_height: u32,
    /// The confirmation time, in unix seconds, of the chain data being
    /// anchored.
    pub confirmation_time: u64,
}

impl Anchor for ConfirmationTimeHeightAnchor {
    open spec fn spec_anchor_block(&self) -> BlockId {
        self.anchor_block
    }

    open spec fn spec_confirmation_height_upper_bound(&self) -> u32 {
        self.confirmation_height
    }

    fn anchor_block(&self) -> BlockId {
        self.anchor_block
    }

    fn confirmation_height_upper_bound(&self) -> u32 {
        self.confirmation_height
    }
}

/// The observed position of some chain data.
#[derive(Debug, Clone, Copy, PartialEq, Eq, Hash)]
pub enum ChainPosition<A> {
    /// The chain data is seen as confirmed, anchored by `A`.
    Confirmed(A),
    /// The chain data is seen in the mempool at the given timestamp.
    Unconfirmed(u64),
}

impl<A: Anchor> ChainPosition<A> {
    /// Returns whether the position is the confirmed variant.
    pub fn is_confirmed(&self) -> (r: bool)
        ensures
            r == (self is Confirmed),
    {
        matches!(self, ChainPosition::Confirmed(_))
    }

    /// Determines the upper bound of the confirmation height.
    pub fn confirmation_height_upper_bound(&self) -> (r: Option<u32>)
        ensures
            r == (match self {
                ChainPosition::Confirmed(a) => Some(a.spec_confirmation_height_upper_bound()),
                ChainPosition::Unconfirmed(_) => None::<u32>,
            }),
    {
        match self {
            ChainPosition::Confirmed(a) => Some(a.confirmation_height_upper_bound()),
            ChainPosition::Unconfirmed(_) => None,
        }
    }
}

impl<'a, A: Clone + Anchor> ChainPosition<&'a A> {
    /// Maps a `ChainPosition<&A>` into a `ChainPosition<A>` by cloning the
    /// contents.
    pub fn cloned(self) -> (r: ChainPosition<A>)
        ensures
            r is Confirmed <==> self is Confirmed,
            self matches ChainPosition::Unconfirmed(t) ==> r == ChainPosition::<A>::Unconfirmed(t),
            (match (self, r) {
                (ChainPosition::Confirmed(a), ChainPosition::Confirmed(b)) => cloned::<A>(*a, b),
                _ => true,
            }),
    {
        match self {
            ChainPosition::Confirmed(a) => ChainPosition::Confirmed(a.clone()),
            ChainPosition::Unconfirmed(last_seen) => ChainPosition::Unconfirmed(last_seen),
        }
    }
}

/// Block height and timestamp at which a transaction is confirmed.
#[derive(Debug, Clone, Copy, PartialEq, Eq, Structural, Hash, PartialOrd, Ord)]
pub enum ConfirmationTime {
    /// The confirmed variant.
    Confirmed {
        /// Confirmation height.
        height: u32,
        /// Confirmation time in unix seconds.
        time: u64,
    },
    /// The unconfirmed variant.
    Unconfirmed {
        /// The last-seen timestamp in unix seconds.
        last_seen: u64,
    },
}

impl ConfirmationTime {
    /// Constructs an unconfirmed variant from a `last_seen` time in unix
    /// seconds.
    pub fn unconfirmed(last_seen: u64) -> (r: Self)
        ensures
            r == (ConfirmationTime::Unconfirmed { last_seen }),
    {
        ConfirmationTime::Unconfirmed { last_seen }
    }

    /// Returns whether this is the confirmed variant.
    pub fn is_confirmed(&self) -> (r: bool)
        ensures
            r == (self is Confirmed),
    {
        matches!(self, ConfirmationTime::Confirmed { .. })
    }
}

impl From<ChainPosition<ConfirmationTimeHeightAnchor>> for ConfirmationTime {
    fn from(observed_as: ChainPosition<ConfirmationTimeHeightAnchor>) -> Self {
        match observed_as {
            ChainPosition::Confirmed(a) => ConfirmationTime::Confirmed {
                height: a.confirmation_height,
                time: a.confirmation_time,
            },
            ChainPosition::Unconfirmed(last_seen) => ConfirmationTime::Unconfirmed { last_seen },
        }
    }
}

impl vstd::std_specs::convert::FromSpecImpl<ChainPosition<ConfirmationTimeHeightAnchor>> for ConfirmationTime {
    open spec fn obeys_from_spec() -> bool {
        true
    }

    open spec fn from_spec(observed_as: ChainPosition<ConfirmationTimeHeightAnchor>) -> Self {
        match observed_as {
            ChainPosition::Confirmed(a) => ConfirmationTime::Confirmed {
                height: a.confirmation_height,
                time: a.confirmation_time,
            },
            ChainPosition::Unconfirmed(last_seen) => ConfirmationTime::Unconfirmed { last_seen },
        }
    }
}

/// A transaction output together with everything known about it.
#[derive(Debug, Clone, PartialEq, Eq)]
pub struct FullTxOut<A> {
    /// The location of the output.
    pub outpoint: bitcoin::OutPoint,
    /// The output itself.
    pub txout: bitcoin::TxOut,
    /// The position in the chain of the transaction holding the output.
    pub chain_position: ChainPosition<A>,
    /// The txid and chain position of the transaction (if any) that has spent
    /// this output.
    pub spent_by: Option<(ChainPosition<A>, bitcoin::Txid)>,
    /// Whether this output is on a coinbase transaction.
    pub is_on_coinbase: bool,
}

impl<A: Anchor> FullTxOut<A> {
    /// Whether the output counts as mature at chain tip `tip`: a non-coinbase
    /// output always is; a coinbase output is mature once its confirmation
    /// depth reaches [`COINBASE_MATURITY`], and an unconfirmed coinbase
    /// output never is.
    pub open spec fn spec_is_mature(self, tip: u32) -> bool {
        if self.is_on_coinbase {
            match self.chain_position {
                ChainPosition::Confirmed(a) => {
                    let h = a.spec_confirmation_height_upper_bound();
                    let age: u32 = if tip >= h {
                        (tip - h) as u32
                    } else {
                        0
                    };
                    age + 1 >= COINBASE_MATURITY
                },
                ChainPosition::Unconfirmed(_) => false,
            }
        } else {
            true
        }
    }

    /// Whether the output is spendable with chain tip `tip`: it must be
    /// mature, confirmed at or below `tip`, and not spent by a transaction
    /// confirmed at or below `tip`. Lock times are not taken into account.
    pub open spec fn spec_is_confirmed_and_spendable(self, tip: u32) -> bool {
        &&& self.spec_is_mature(tip)
        &&& match self.chain_position {
            ChainPosition::Confirmed(a) => {
                &&& a.spec_confirmation_height_upper_bound() <= tip
                &&& match self.spent_by {
                    Some((spending_position, _)) => match spending_position {
                        ChainPosition::Confirmed(sa) => sa.spec_anchor_block().height > tip,
                        ChainPosition::Unconfirmed(_) => true,
                    },
                    None => true,
                }
            },
            ChainPosition::Unconfirmed(_) => false,
        }
    }

    /// Whether the `txout` is considered mature.
    ///
    /// Depending on the `Anchor` implementation's confirmation-height upper
    /// bound, this method may return false negatives: the interpreted
    /// confirmation count may be less than the actual one.
    pub fn is_mature(&self, tip: u32) -> (r: bool)
        ensures
            r == self.spec_is_mature(tip),
    {
        if self.is_on_coinbase {
            let tx_height: u32 = match &self.chain_position {
                ChainPosition::Confirmed(anchor) => anchor.confirmation_height_upper_bound(),
                ChainPosition::Unconfirmed(_) => {
                    // a coinbase output can never be unconfirmed
                    return false;
                },
            };
            let age: u32 = if tip >= tx_height {
                tip - tx_height
            } else {
                0
            };
            if age < COINBASE_MATURITY - 1 {
                return false;
            }
        }
        true
    }

    /// Whether the utxo is/was/will be spendable with chain `tip`.
    ///
    /// This method does not take the lock time into account. As with
    /// [`is_mature`](Self::is_mature), the result may be a false negative,
    /// never a false positive.
    pub fn is_confirmed_and_spendable(&self, tip: u32) -> (r: bool)
        ensures
            r == self.spec_is_confirmed_and_spendable(tip),
    {
        if !self.is_mature(tip) {
            return false;
        }
        let confirmation_height: u32 = match &self.chain_position {
            ChainPosition::Confirmed(anchor) => anchor.confirmation_height_upper_bound(),
            ChainPosition::Unconfirmed(_) => {
                return false;
            },
        };
        if confirmation_height > tip {
            return false;
        }
        // if the spending tx is confirmed within the tip height, the txout is
        // no longer spendable
        if let Some((spending_position, _)) = &self.spent_by {
            if let ChainPosition::Confirmed(spending_anchor) = spending_position {
                if spending_anchor.anchor_block().height <= tip {
                    return false;
                }
            }
        }
        true
    }
}

} // verus!
