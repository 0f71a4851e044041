//! The local chain: a persistent list of checkpoints plus a height index,
//! with an algorithm for merging an external chain update into the local
//! view.

use crate::block_map::entries_contain_key;
use crate::block_map::entries_map;
use crate::block_map::entries_sorted;
use crate::block_map::entries_value;
use crate::block_map::entries_unique;
use crate::block_map::lemma_entries_map_concat;
use crate::block_map::lemma_entries_map_push;
use crate::block_map::lemma_entries_map_reverse;
use crate::block_map::lemma_entries_value;
use crate::block_map::lemma_entries_value_unique;
use crate::block_map::lemma_first_key_min;
use crate::block_map::lemma_sorted_remove;
use crate::block_map::map_below;
use crate::block_map::map_from;
use crate::block_map::BlockMap;
use crate::chain_data::BlockId;
use std::sync::Arc;
use vstd::prelude::*;

verus! {

/// A checkpoint node: a block id plus a shared handle on the rest of the
/// chain below it.
#[derive(Debug)]
struct CPInner {
    /// Block id (hash and height).
    block: BlockId,
    /// Previous checkpoint (if any).
    prev: Option<Arc<CPInner>>,
}

/// The blocks of a checkpoint node and everything below it, highest first.
spec fn cp_blocks(n: &CPInner) -> Seq<BlockId>
    decreases *n,
{
    match n.prev {
        None => seq![n.block],
        Some(p) => seq![n.block] + cp_blocks(&*p),
    }
}

/// Heights strictly decrease along a checkpoint list.
spec fn cp_descending(n: &CPInner) -> bool
    decreases *n,
{
    match n.prev {
        None => true,
        Some(p) => p.block.height < n.block.height && cp_descending(&*p),
    }
}

/// A checkpoint of a [`LocalChain`]: a cloneable handle on a node of a
/// reference-counted singly-linked list of blocks in descending height
/// order. Cloning is cheap and the nodes are immutable, so a handle can be
/// traversed independently of later chain mutations.
#[derive(Debug)]
pub struct CheckPoint(Arc<CPInner>);

impl View for CheckPoint {
    type V = Seq<BlockId>;

    closed spec fn view(&self) -> Seq<BlockId> {
        cp_blocks(&*self.0)
    }
}

impl CheckPoint {
    /// The list below any reachable handle strictly descends in height;
    /// this holds of every `CheckPoint` by construction.
    #[verifier::type_invariant]
    pub closed spec fn wf(self) -> bool {
        cp_descending(&*self.0)
    }

    /// Construct a new base block at the front of a linked list.
    pub fn new(block: BlockId) -> (r: Self)
        ensures
            r@ == seq![block],
    {
        CheckPoint(Arc::new(CPInner { block, prev: None }))
    }

    /// Get the [`BlockId`] of the checkpoint.
    pub fn block_id(&self) -> (r: BlockId)
        ensures
            r == self@[0],
    {
        self.0.block
    }

    /// Get the height of the checkpoint.
    pub fn height(&self) -> (r: u32)
        ensures
            r == self@[0].height,
    {
        self.0.block.height
    }

    /// Get the block hash of the checkpoint.
    pub fn hash(&self) -> (r: bitcoin::BlockHash)
        ensures
            r == self@[0].hash,
    {
        self.0.block.hash
    }

    /// Get the previous checkpoint in the chain.
    pub fn prev(&self) -> (r: Option<CheckPoint>)
        ensures
            match r {
                Some(p) => self@.len() > 1 && p@ == self@.skip(1),
                None => self@.len() == 1,
            },
    {
        proof {
            use_type_invariant(self);
        }
        match &self.0.prev {
            Some(p) => {
                proof {
                    assert(self@ == seq![self.0.block] + cp_blocks(&**p));
                    assert(self@.skip(1) =~= cp_blocks(&**p));
                }
                Some(CheckPoint(clone_arc(p)))
            },
            None => None,
        }
    }

    /// Puts another checkpoint onto the linked list representing the
    /// blockchain; fails, handing back the unchanged handle, unless the new
    /// block's height is greater than the current tip's.
    pub fn push(self, block: BlockId) -> (r: Result<Self, Self>)
        ensures
            match r {
                Ok(c) => block.height > self@[0].height && c@ == seq![block] + self@,
                Err(c) => block.height <= self@[0].height && c == self,
            },
    {
        proof {
            use_type_invariant(&self);
        }
        if self.height() < block.height {
            Ok(CheckPoint(Arc::new(CPInner { block, prev: Some(self.0) })))
        } else {
            Err(self)
        }
    }
}

/// Heights strictly increase along `s`.
pub open spec fn heights_ascending(s: Seq<BlockId>) -> bool {
    forall|i: int, j: int| 0 <= i < j < s.len() ==> s[i].height < s[j].height
}

/// `s` is strictly ascending and every height lies above `h`.
pub open spec fn extendable(h: u32, s: Seq<BlockId>) -> bool {
    heights_ascending(s) && (forall|i: int| 0 <= i < s.len() ==> s[i].height > h)
}

impl CheckPoint {
    /// Construct a checkpoint from a list of [`BlockId`]s in strictly
    /// ascending height order.
    ///
    /// # Errors
    ///
    /// Fails with `None` if `block_ids` is empty, and with the last
    /// successfully constructed checkpoint if the heights are not strictly
    /// ascending.
    pub fn from_block_ids(block_ids: &Vec<BlockId>) -> (r: Result<Self, Option<Self>>)
        ensures
            match r {
                Ok(c) => block_ids@.len() > 0 && heights_ascending(block_ids@) && c@
                    == block_ids@.reverse(),
                Err(None) => block_ids@.len() == 0,
                Err(Some(c)) => exists|k: int|
                    1 <= k < block_ids@.len() && heights_ascending(#[trigger] block_ids@.take(k))
                        && block_ids@[k].height <= block_ids@[k - 1].height && c@
                        == block_ids@.take(k).reverse(),
            },
    {
        let n = block_ids.len();
        if n == 0 {
            return Err(None);
        }
        let mut acc = CheckPoint::new(block_ids[0]);
        proof {
            assert(acc@ =~= block_ids@.take(1).reverse());
        }
        let mut i: usize = 1;
        while i < n
            invariant
                n == block_ids@.len(),
                1 <= i <= n,
                heights_ascending(block_ids@.take(i as int)),
                acc@ == block_ids@.take(i as int).reverse(),
                acc@[0] == block_ids@[i - 1],
            decreases n - i,
        {
            let prev_acc = acc;
            acc = match prev_acc.push(block_ids[i]) {
                Ok(c) => c,
                Err(c) => {
                    proof {
                        assert(c@ == block_ids@.take(i as int).reverse());
                    }
                    return Err(Some(c));
                },
            };
            proof {
                assert(acc@ =~= block_ids@.take(i + 1).reverse());
                let t = block_ids@.take(i + 1);
                assert forall|a: int, b: int|
                    0 <= a < b < t.len() implies #[trigger] t[a].height < #[trigger] t[b].height by {
                    if b < i {
                        assert(block_ids@.take(i as int)[a].height < block_ids@.take(
                            i as int,
                        )[b].height);
                    } else {
                        if a < i - 1 {
                            assert(block_ids@.take(i as int)[a].height < block_ids@.take(
                                i as int,
                            )[i - 1].height);
                        }
                    }
                }
            }
            i += 1;
        }
        proof {
            assert(block_ids@.take(n as int) =~= block_ids@);
        }
        Ok(acc)
    }

    /// Construct a checkpoint from the given `header` and block `height`.
    ///
    /// If the header is of the genesis block the checkpoint has no previous
    /// node; otherwise it is linked with the previous block.
    pub fn from_header(header: &bitcoin::block::Header, height: u32) -> (r: Self)
        ensures
            r@ == (if height == 0 {
                seq![BlockId { height: 0u32, hash: crate::host::hash_of_header(*header) }]
            } else {
                seq![
                    BlockId { height, hash: crate::host::hash_of_header(*header) },
                    BlockId {
                        height: (height - 1) as u32,
                        hash: crate::host::prev_of_header(*header),
                    },
                ]
            }),
    {
        let hash = crate::host::header_block_hash(header);
        let this_block = BlockId { height, hash };
        if height == 0 {
            return CheckPoint::new(this_block);
        }
        let prev_block = BlockId {
            height: height - 1,
            hash: crate::host::header_prev_blockhash(header),
        };
        match CheckPoint::new(prev_block).push(this_block) {
            Ok(c) => c,
            Err(c) => {
                proof {
                    assert(false);
                }
                c
            },
        }
    }

    /// Extends the checkpoint list with the given block ids, which must be in
    /// strictly ascending height order, all above the current tip; on the
    /// first offending block the original pre-extend handle is returned.
    #[verifier::loop_isolation(false)]
    pub fn extend(self, blocks: &Vec<BlockId>) -> (r: Result<Self, Self>)
        ensures
            match r {
                Ok(c) => extendable(self@[0].height, blocks@) && c@ == blocks@.reverse() + self@,
                Err(c) => !extendable(self@[0].height, blocks@) && c == self,
            },
    {
        let ghost s0 = self@;
        let ghost self0 = self;
        let orig = self.clone();
        let mut curr = self;
        let n = blocks.len();
        let mut i: usize = 0;
        proof {
            assert(curr@ =~= blocks@.take(0).reverse() + s0);
        }
        while i < n
            invariant
                n == blocks@.len(),
                i <= n,
                orig == self0,
                self0@ == s0,
                s0.len() > 0,
                extendable(s0[0].height, blocks@.take(i as int)),
                curr@ == blocks@.take(i as int).reverse() + s0,
                curr@[0] == (if i == 0 {
                    s0[0]
                } else {
                    blocks@[i - 1]
                }),
            decreases n - i,
        {
            let prev_curr = curr;
            let ghost top = prev_curr@[0];
            curr = match prev_curr.push(blocks[i]) {
                Ok(c) => c,
                Err(_) => {
                    proof {
                        assert(blocks@[i as int].height <= top.height);
                        if i == 0 {
                            assert(blocks@[0].height <= s0[0].height);
                        } else {
                            assert(top == blocks@[i - 1]);
                            assert(!(blocks@[i - 1].height < blocks@[i as int].height));
                        }
                        assert(!extendable(s0[0].height, blocks@));
                    }
                    return Err(orig);
                },
            };
            proof {
                assert(curr@ =~= blocks@.take(i + 1).reverse() + s0);
                let t = blocks@.take(i + 1);
                assert forall|a: int| 0 <= a < t.len() implies #[trigger] t[a].height
                    > s0[0].height by {
                    if a < i {
                        assert(blocks@.take(i as int)[a].height > s0[0].height);
                    }
                }
                assert forall|a: int, b: int|
                    0 <= a < b < t.len() implies #[trigger] t[a].height < #[trigger] t[b].height by {
                    if b < i {
                        assert(blocks@.take(i as int)[a].height < blocks@.take(
                            i as int,
                        )[b].height);
                    } else {
                        if i > 0 && a < i {
                            assert(blocks@[a].height <= top.height) by {
                                if a < i - 1 {
                                    assert(blocks@.take(i as int)[a].height < blocks@.take(
                                        i as int,
                                    )[i - 1].height);
                                }
                            }
                        }
                    }
                }
            }
            i += 1;
        }
        proof {
            assert(blocks@.take(n as int) =~= blocks@);
        }
        Ok(curr)
    }

    /// Convenience method to convert the checkpoint into an [`Update`].
    pub fn into_update(self, introduce_older_blocks: bool) -> (r: Update)
        ensures
            r.tip == self,
            r.introduce_older_blocks == introduce_older_blocks,
    {
        Update { tip: self, introduce_older_blocks }
    }

    /// Iterate from this checkpoint in descending height order.
    pub fn iter(&self) -> (r: CheckPointIter)
        ensures
            r.remaining() == self@,
            self@.len() >= 1,
            heights_descending(self@),
    {
        proof {
            use_type_invariant(self);
            lemma_cp_view_descending(&*self.0);
        }
        CheckPointIter { current: Some(self.clone()) }
    }
}

/// Every checkpoint handle covers at least one block, and its blocks
/// strictly descend in height: the root is the lowest block of the list.
pub proof fn lemma_checkpoint_blocks_descend(cp: CheckPoint)
    requires
        cp.wf(),
    ensures
        cp@.len() >= 1,
        heights_descending(cp@),
{
    lemma_cp_view_descending(&*cp.0);
}

/// Iterates over checkpoints backwards, from a tip down to the root.
pub struct CheckPointIter {
    current: Option<CheckPoint>,
}

impl CheckPointIter {
    /// The blocks this iterator has yet to yield, highest first.
    pub closed spec fn remaining(self) -> Seq<BlockId> {
        match self.current {
            Some(cp) => cp@,
            None => Seq::empty(),
        }
    }

    /// Yields the highest remaining checkpoint, as a cloneable handle on that
    /// node and everything below it.
    pub fn next(&mut self) -> (r: Option<CheckPoint>)
        ensures
            match r {
                Some(cp) => old(self).remaining().len() > 0 && cp@ == old(self).remaining()
                    && final(self).remaining() == old(self).remaining().skip(1),
                None => old(self).remaining().len() == 0 && *final(self) == *old(self),
            },
    {
        let cur = match &self.current {
            Some(cp) => cp.clone(),
            None => {
                return None;
            },
        };
        self.current = cur.prev();
        proof {
            if cur@.len() == 1 {
                assert(final(self).remaining() =~= cur@.skip(1));
            }
        }
        Some(cur)
    }
}

/// Used to update [`LocalChain`]: the update chain's tip, plus a flag that
/// signals whether the update intends to introduce blocks missing from the
/// original chain below the point of agreement.
#[derive(Debug, Clone)]
pub struct Update {
    /// The update chain's new tip.
    pub tip: CheckPoint,
    /// Whether the update allows for introducing older blocks.
    pub introduce_older_blocks: bool,
}

/// The `(height, hash)` entry of each block, in block order.
pub open spec fn pairs_of(s: Seq<BlockId>) -> Seq<(u32, bitcoin::BlockHash)> {
    s.map_values(|b: BlockId| (b.height, b.hash))
}

/// The block ids described by a sequence of `(height, hash)` entries.
pub open spec fn ids_of(s: Seq<(u32, bitcoin::BlockHash)>) -> Seq<BlockId> {
    s.map_values(|e: (u32, bitcoin::BlockHash)| BlockId { height: e.0, hash: e.1 })
}

/// The height-to-hash map of a block sequence.
pub open spec fn blocks_to_map(s: Seq<BlockId>) -> Map<u32, bitcoin::BlockHash> {
    entries_map(pairs_of(s))
}

/// Heights strictly decrease along `s`.
pub open spec fn heights_descending(s: Seq<BlockId>) -> bool {
    forall|i: int, j: int| 0 <= i < j < s.len() ==> s[i].height > s[j].height
}

/// The blocks of a well-formed checkpoint node are nonempty and strictly
/// descending in height.
proof fn lemma_cp_view_descending(n: &CPInner)
    requires
        cp_descending(n),
    ensures
        cp_blocks(n).len() >= 1,
        cp_blocks(n)[0] == n.block,
        heights_descending(cp_blocks(n)),
    decreases *n,
{
    match &n.prev {
        None => {},
        Some(p) => {
            lemma_cp_view_descending(&**p);
            let t = cp_blocks(&**p);
            let c = cp_blocks(n);
            assert(c == seq![n.block] + t);
            assert forall|i: int, j: int| 0 <= i < j < c.len() implies c[i].height
                > c[j].height by {
                if i == 0 {
                    assert(c[j] == t[j - 1]);
                    if j - 1 > 0 {
                        assert(t[0].height > t[j - 1].height);
                    }
                } else {
                    assert(c[i] == t[i - 1]);
                    assert(c[j] == t[j - 1]);
                }
            }
        },
    }
}

/// Strictly descending blocks have pairwise distinct heights.
proof fn lemma_descending_unique(s: Seq<BlockId>)
    requires
        heights_descending(s),
    ensures
        entries_unique(pairs_of(s)),
{
    assert forall|i: int, j: int| 0 <= i < j < pairs_of(s).len() implies pairs_of(s)[i].0
        != pairs_of(s)[j].0 by {
        assert(s[i].height > s[j].height);
    }
}

/// An error which occurs when a [`LocalChain`] would be left without a
/// height-0 checkpoint.
#[derive(Debug, Clone, Copy, PartialEq, Eq, Structural)]
pub struct MissingGenesisError;

/// A failure to insert or remove a checkpoint: the existing checkpoint at
/// `height` holds a conflicting hash.
#[derive(Debug, Clone, PartialEq)]
pub struct AlterCheckPointError {
    /// The checkpoint's height.
    pub height: u32,
    /// The original checkpoint's block hash, which cannot be replaced or
    /// removed.
    pub original_hash: bitcoin::BlockHash,
    /// The hash the caller attempted to put at `height`.
    pub update_hash: Option<bitcoin::BlockHash>,
}

/// Occurs when an update cannot connect unambiguously with the original
/// chain; `try_include_height` hints at a height whose inclusion would help.
#[derive(Debug, Clone, Copy, PartialEq, Eq, Structural)]
pub struct CannotConnectError {
    /// The suggested checkpoint height to include to connect the two chains.
    pub try_include_height: u32,
}

/// The error type for [`LocalChain::apply_header_connected_to`].
#[derive(Debug, Clone, Copy, PartialEq, Eq, Structural)]
pub enum ApplyHeaderError {
    /// The `connected_to` block conflicts with either the header's block or
    /// its previous block.
    InconsistentBlocks,
    /// The update derived from the header cannot connect with the original
    /// chain.
    CannotConnect(CannotConnectError),
}

/// The [`ChangeSet`] describes changes to a [`LocalChain`]: the key is a
/// block height, and the value either sets a new hash there (`Some`) or
/// removes the block at that height (`None`).
pub type ChangeSet = BlockMap<Option<bitcoin::BlockHash>>;

/// A local, in-memory view of the best chain: the current tip plus an index
/// from height to block hash holding exactly the blocks at or above the
/// tip list's root (plus the genesis entry, which the index always holds).
#[derive(Debug)]
pub struct LocalChain {
    tip: CheckPoint,
    index: BlockMap<bitcoin::BlockHash>,
    birthday: u32,
}

impl LocalChain {
    /// The blocks reachable from the tip, highest first.
    pub closed spec fn tip_blocks(self) -> Seq<BlockId> {
        self.tip@
    }

    /// The `(height, hash)` entries of the index, in ascending height order.
    pub closed spec fn index_entries(self) -> Seq<(u32, bitcoin::BlockHash)> {
        self.index@
    }

    /// The height-to-hash map of the index.
    pub open spec fn index_map(self) -> Map<u32, bitcoin::BlockHash> {
        entries_map(self.index_entries())
    }

    /// The height below which this chain's history is unobservable (see
    /// [`LocalChain::is_same_chain`]).
    pub closed spec fn spec_birthday(self) -> u32 {
        self.birthday
    }

    /// The height of the lowest block in the tip list.
    pub open spec fn root_height(self) -> u32 {
        self.tip_blocks().last().height
    }

    /// Every reachable chain has a genesis entry in its index, and the index
    /// agrees with the tip list on every height at or above the tip list's
    /// root.
    #[verifier::type_invariant]
    pub closed spec fn wf(self) -> bool {
        &&& self.tip@.len() >= 1
        &&& entries_map(self.index@).contains_key(0)
        &&& map_from(entries_map(self.index@), self.tip@.last().height) == blocks_to_map(self.tip@)
    }

    /// Get the highest checkpoint.
    pub fn tip(&self) -> (r: CheckPoint)
        ensures
            r@ == self.tip_blocks(),
    {
        self.tip.clone()
    }

    /// Get a reference to the internal index mapping each height to its
    /// block hash.
    pub fn blocks(&self) -> (r: &BlockMap<bitcoin::BlockHash>)
        ensures
            r@ == self.index_entries(),
    {
        &self.index
    }

    /// Iterate over checkpoints in descending height order.
    pub fn iter_checkpoints(&self) -> (r: CheckPointIter)
        ensures
            r.remaining() == self.tip_blocks(),
    {
        self.tip.iter()
    }

    /// Get the genesis hash.
    pub fn genesis_hash(&self) -> (r: bitcoin::BlockHash)
        ensures
            self.index_map().contains_key(0),
            r == self.index_map()[0],
    {
        proof {
            use_type_invariant(&*self);
            use_type_invariant(&self.index);
            let i = choose|i: int| 0 <= i < self.index@.len() && self.index@[i].0 == 0;
            if i > 0 {
                assert(self.index@[0].0 < self.index@[i].0);
            }
            assert(self.index@[0].0 == 0);
            lemma_entries_value(self.index@, 0);
        }
        self.index.val_at(0)
    }

    /// Derives an initial [`ChangeSet`]: applied to an empty chain it
    /// recovers the current one.
    pub fn initial_changeset(&self) -> (r: ChangeSet)
        ensures
            r@ == self.index_entries().map_values(
                |e: (u32, bitcoin::BlockHash)| (e.0, Some(e.1)),
            ),
    {
        proof {
            use_type_invariant(&self.index);
        }
        let ghost target = self.index@.map_values(|e: (u32, bitcoin::BlockHash)| (e.0, Some(e.1)));
        let mut r: ChangeSet = BlockMap::new();
        let n = self.index.len();
        let mut j: usize = 0;
        while j < n
            invariant
                n == self.index@.len(),
                j <= n,
                entries_sorted(self.index@),
                target == self.index@.map_values(
                    |e: (u32, bitcoin::BlockHash)| (e.0, Some(e.1)),
                ),
                r@ == target.take(j as int),
            decreases n - j,
        {
            let k = self.index.key_at(j);
            let v = self.index.val_at(j);
            proof {
                if j > 0 {
                    assert(r@.last() == target[j - 1]);
                    assert(target[j - 1].0 == self.index@[j - 1].0);
                    assert(self.index@[j - 1].0 < self.index@[j as int].0);
                }
            }
            r.append(k, Some(v));
            proof {
                assert(r@ =~= target.take(j + 1));
            }
            j += 1;
        }
        proof {
            assert(target.take(n as int) =~= target);
        }
        r
    }

    /// Construct a [`LocalChain`] from the genesis `hash`.
    pub fn from_genesis_hash(hash: bitcoin::BlockHash) -> (r: (Self, ChangeSet))
        ensures
            r.0.tip_blocks() == seq![BlockId { height: 0u32, hash }],
            r.0.index_entries() == seq![(0u32, hash)],
            r.0.spec_birthday() == 0,
            r.1@ == seq![(0u32, Some(hash))],
    {
        let tip = CheckPoint::new(BlockId { height: 0, hash });
        let mut index: BlockMap<bitcoin::BlockHash> = BlockMap::new();
        index.append(0, hash);
        proof {
            assert(index@ =~= seq![(0u32, hash)]);
        }
        proof {
            lemma_entries_value(index@, 0);
            assert(pairs_of(tip@) =~= seq![(0u32, hash)]);
            assert(tip@.last() == BlockId { height: 0u32, hash });
            assert(map_from(entries_map(index@), tip@.last().height) =~= blocks_to_map(tip@));
        }
        let chain = LocalChain { tip, index, birthday: 0 };
        let changeset = chain.initial_changeset();
        proof {
            assert(changeset@ =~= seq![(0u32, Some(hash))]);
        }
        (chain, changeset)
    }

    /// Construct a [`LocalChain`] from a specific `block_id`, remembering the
    /// genesis hash in the index; the tip list holds only `block_id`.
    pub fn from_block_id(genesis_hash: bitcoin::BlockHash, block_id: BlockId) -> (r: (
        Self,
        ChangeSet,
    ))
        ensures
            r.0.tip_blocks() == seq![block_id],
            r.0.index_entries() == (if block_id.height == 0 {
                seq![(0u32, block_id.hash)]
            } else {
                seq![(0u32, genesis_hash), (block_id.height, block_id.hash)]
            }),
            r.0.spec_birthday() == block_id.height,
            r.1@ == r.0.index_entries().map_values(
                |e: (u32, bitcoin::BlockHash)| (e.0, Some(e.1)),
            ),
    {
        let tip = CheckPoint::new(block_id);
        let mut index: BlockMap<bitcoin::BlockHash> = BlockMap::new();
        if block_id.height == 0 {
            index.append(0, block_id.hash);
            proof {
                assert(index@ =~= seq![(0u32, block_id.hash)]);
            }
        } else {
            index.append(0, genesis_hash);
            index.append(block_id.height, block_id.hash);
            proof {
                assert(index@ =~= seq![(0u32, genesis_hash), (block_id.height, block_id.hash)]);
            }
        }
        proof {
            lemma_entries_value(index@, 0);
            assert(pairs_of(tip@) =~= seq![(block_id.height, block_id.hash)]);
            assert(tip@.last() == block_id);
            if block_id.height != 0 {
                lemma_entries_value(index@, 1);
            }
            lemma_entries_value(pairs_of(tip@), 0);
            assert(map_from(entries_map(index@), block_id.height) =~= blocks_to_map(tip@));
        }
        let chain = LocalChain { tip, index, birthday: block_id.height };
        let changeset = chain.initial_changeset();
        (chain, changeset)
    }
}

/// Collects the `(height, hash)` entries of the tip list at or above
/// `from`, in ascending height order.
fn collect_from(tip: &CheckPoint, from: u32) -> (r: (
    BlockMap<bitcoin::BlockHash>,
    Option<CheckPoint>,
    Ghost<int>,
))
    ensures
        r.0.as_map() == map_from(blocks_to_map(tip@), from),
        0 <= r.2@ <= tip@.len(),
        forall|a: int| 0 <= a < r.2@ ==> (#[trigger] tip@[a]).height >= from,
        r.2@ == tip@.len() || tip@[r.2@].height < from,
        r.0@ == pairs_of(tip@.take(r.2@)).reverse(),
        match r.1 {
            Some(b) => r.2@ < tip@.len() && b@ == tip@.skip(r.2@),
            None => r.2@ == tip@.len(),
        },
{
    proof {
        use_type_invariant(tip);
        lemma_cp_view_descending(&*tip.0);
    }
    let ghost ts = tip@;
    let mut stack: Vec<(u32, bitcoin::BlockHash)> = Vec::new();
    let mut base: Option<CheckPoint> = None;
    let mut it = tip.iter();
    let ghost mut k: int = 0;
    loop
        invariant_except_break
            heights_descending(ts),
            ts == tip@,
            0 <= k <= ts.len(),
            it.remaining() == ts.skip(k),
            stack@ == pairs_of(ts.take(k)),
            base is None,
            forall|a: int| 0 <= a < k ==> (#[trigger] ts[a]).height >= from,
        ensures
            0 <= k <= ts.len(),
            k == ts.len() || ts[k].height < from,
            stack@ == pairs_of(ts.take(k)),
            forall|a: int| 0 <= a < k ==> (#[trigger] ts[a]).height >= from,
            match base {
                Some(b) => k < ts.len() && b@ == ts.skip(k),
                None => k == ts.len(),
            },
        decreases ts.len() - k,
    {
        let cp = match it.next() {
            None => {
                proof {
                    assert(ts.skip(k).len() == 0);
                }
                break;
            },
            Some(cp) => cp,
        };
        proof {
            assert(cp@[0] == ts.skip(k)[0]);
        }
        if cp.height() < from {
            base = Some(cp);
            break;
        }
        stack.push((cp.height(), cp.hash()));
        proof {
            assert(stack@ =~= pairs_of(ts.take(k + 1)));
            k = k + 1;
        }
    }
    let ghost kk = k;
    let ghost stack_s = stack@;
    proof {
        assert forall|a: int, b: int| 0 <= a < b < stack_s.len() implies stack_s[a].0
            > stack_s[b].0 by {
            assert(ts[a].height > ts[b].height);
        }
    }
    let m = stack.len();
    let mut bm: BlockMap<bitcoin::BlockHash> = BlockMap::new();
    let mut j: usize = 0;
    while j < m
        invariant
            m == stack@.len(),
            stack@ == stack_s,
            j <= m,
            forall|a: int, b: int| 0 <= a < b < stack_s.len() ==> stack_s[a].0 > stack_s[b].0,
            bm@ == stack_s.skip(m - j).reverse(),
        decreases m - j,
    {
        let idx = m - 1 - j;
        let e = stack[idx];
        proof {
            if j > 0 {
                assert(bm@.last() == stack_s[m - j]);
                assert(stack_s[idx as int].0 > stack_s[(m - j) as int].0);
            }
        }
        bm.append(e.0, e.1);
        proof {
            assert(bm@ =~= stack_s.skip(m - j - 1).reverse());
        }
        j += 1;
    }
    proof {
        assert(stack_s.skip(0) =~= stack_s);
        assert(bm@ == stack_s.reverse());
        lemma_descending_unique(ts);
        let full = pairs_of(ts);
        assert forall|a: int, b: int| 0 <= a < b < stack_s.len() implies stack_s[a].0
            != stack_s[b].0 by {
            assert(stack_s[a].0 > stack_s[b].0);
        }
        lemma_entries_map_reverse(stack_s);
        assert forall|h: u32|
            entries_map(stack_s).contains_key(h) <==> (entries_map(full).contains_key(h) && h
                >= from) by {
            if entries_contain_key(stack_s, h) {
                let a = choose|a: int| 0 <= a < stack_s.len() && stack_s[a].0 == h;
                assert(ts[a].height == h);
                assert(full[a].0 == h);
                assert(ts[a].height >= from);
            }
            if entries_contain_key(full, h) && h >= from {
                let a = choose|a: int| 0 <= a < full.len() && full[a].0 == h;
                assert(ts[a].height == h);
                if a >= kk {
                    assert(kk < ts.len());
                    if a > kk {
                        assert(ts[kk as int].height > ts[a].height);
                    }
                    assert(ts[a].height < from);
                }
                assert(stack_s[a].0 == h);
            }
        }
        assert forall|h: u32| entries_map(stack_s).contains_key(h) implies entries_map(stack_s)[h]
            == entries_map(full)[h] by {
            let a = choose|a: int| 0 <= a < stack_s.len() && stack_s[a].0 == h;
            lemma_entries_value_unique(stack_s, a);
            assert(full[a] == stack_s[a]);
            lemma_entries_value_unique(full, a);
        }
        assert(bm.as_map() =~= map_from(blocks_to_map(ts), from));
        assert(bm@ == pairs_of(ts.take(kk)).reverse());
    }
    (bm, base, Ghost(kk))
}

impl LocalChain {
    /// Construct a [`LocalChain`] from a given `tip` checkpoint, indexing
    /// every block reachable from it; the tip list must reach height 0.
    pub fn from_tip(tip: CheckPoint) -> (r: Result<Self, MissingGenesisError>)
        ensures
            match r {
                Ok(c) => tip@.last().height == 0 && c.tip_blocks() == tip@ && c.index_entries()
                    == pairs_of(tip@).reverse() && c.spec_birthday() == 0,
                Err(_) => tip@.last().height != 0,
            },
    {
        proof {
            use_type_invariant(&tip);
            lemma_cp_view_descending(&*tip.0);
        }
        let ghost ts = tip@;
        let (index, _base, k_g) = collect_from(&tip, 0);
        proof {
            let k = k_g@;
            assert(k == ts.len());
            assert(ts.take(k) =~= ts);
            assert(index@ == pairs_of(ts).reverse());
            assert(index@[0] == pairs_of(ts)[ts.len() - 1]);
        }
        match index.first_key() {
            None => {
                proof {
                    assert(false);
                }
                Err(MissingGenesisError)
            },
            Some(k0) => {
                if k0 != 0 {
                    proof {
                        assert(k0 == ts.last().height);
                    }
                    return Err(MissingGenesisError);
                }
                proof {
                    use_type_invariant(&index);
                    lemma_entries_value(index@, 0);
                    lemma_descending_unique(ts);
                    lemma_entries_map_reverse(pairs_of(ts));
                    assert(map_from(entries_map(index@), ts.last().height) =~= blocks_to_map(ts));
                }
                Ok(LocalChain { tip, index, birthday: 0 })
            },
        }
    }

    /// Constructs a [`LocalChain`] from a height-to-hash map of blocks,
    /// which must contain a genesis entry at height 0.
    pub fn from_blocks(blocks: BlockMap<bitcoin::BlockHash>) -> (r: Result<
        Self,
        MissingGenesisError,
    >)
        ensures
            match r {
                Ok(c) => entries_map(blocks@).contains_key(0) && c.index_entries() == blocks@
                    && c.tip_blocks() == ids_of(blocks@).reverse() && c.spec_birthday() == 0,
                Err(_) => !entries_map(blocks@).contains_key(0),
            },
    {
        proof {
            use_type_invariant(&blocks);
        }
        let ghost bs = blocks@;
        match blocks.first_key() {
            None => {
                proof {
                    assert(!entries_contain_key(bs, 0));
                }
                return Err(MissingGenesisError);
            },
            Some(k0) => {
                if k0 != 0 {
                    proof {
                        lemma_first_key_min(bs);
                        assert(!entries_contain_key(bs, 0)) by {
                            if entries_contain_key(bs, 0) {
                                assert(entries_map(bs).contains_key(0));
                                assert(bs[0].0 <= 0);
                            }
                        }
                    }
                    return Err(MissingGenesisError);
                }
            },
        }
        proof {
            lemma_entries_value(bs, 0);
        }
        let n = blocks.len();
        let mut v: Vec<BlockId> = Vec::new();
        let mut i: usize = 0;
        while i < n
            invariant
                n == blocks@.len(),
                blocks@ == bs,
                i <= n,
                entries_sorted(bs),
                v@ == ids_of(bs.take(i as int)),
            decreases n - i,
        {
            v.push(BlockId { height: blocks.key_at(i), hash: blocks.val_at(i) });
            proof {
                assert(v@ =~= ids_of(bs.take(i + 1)));
            }
            i += 1;
        }
        proof {
            assert(bs.take(n as int) =~= bs);
            assert forall|a: int, b: int| 0 <= a < b < v@.len() implies v@[a].height
                < v@[b].height by {
                assert(bs[a].0 < bs[b].0);
            }
        }
        let tip = match CheckPoint::from_block_ids(&v) {
            Ok(c) => c,
            Err(_) => {
                proof {
                    assert(false);
                }
                CheckPoint::new(BlockId { height: 0, hash: blocks.val_at(0) })
            },
        };
        proof {
            assert(tip@ == ids_of(bs).reverse());
            assert(tip@.last() == ids_of(bs)[0]);
            assert(tip@.last().height == 0);
            assert(pairs_of(tip@) =~= bs.reverse());
            assert forall|a: int, b: int| 0 <= a < b < bs.len() implies bs[a].0 != bs[b].0 by {
                assert(bs[a].0 < bs[b].0);
            }
            lemma_entries_map_reverse(bs);
            assert(map_from(entries_map(bs), 0) =~= entries_map(bs));
        }
        Ok(LocalChain { tip, index: blocks, birthday: 0 })
    }
}

/// The map that results from applying a change set to a base height map:
/// `Some` entries write, `None` entries delete, untouched heights persist.
pub open spec fn changes_applied(
    base: Map<u32, bitcoin::BlockHash>,
    cs: Map<u32, Option<bitcoin::BlockHash>>,
) -> Map<u32, bitcoin::BlockHash> {
    Map::new(
        |h: u32|
            if cs.contains_key(h) {
                cs[h] is Some
            } else {
                base.contains_key(h)
            },
        |h: u32|
            if cs.contains_key(h) && cs[h] is Some {
                cs[h]->0
            } else {
                base[h]
            },
    )
}

impl LocalChain {
    /// The extension a change set with entries `cs` produces on this chain:
    /// the tip entries at or above the change set's lowest height, with the
    /// changes applied.
    pub open spec fn spec_extension(self, cs: Seq<(u32, Option<bitcoin::BlockHash>)>) -> Map<
        u32,
        bitcoin::BlockHash,
    > {
        changes_applied(map_from(blocks_to_map(self.tip_blocks()), cs[0].0), entries_map(cs))
    }

    /// Whether applying a change set with entries `cs` to this chain
    /// succeeds: an empty change set always does; otherwise either some tip
    /// block survives below the changed range, or the extension itself
    /// reaches down to a genesis entry.
    pub open spec fn applies_ok(self, cs: Seq<(u32, Option<bitcoin::BlockHash>)>) -> bool {
        ||| cs.len() == 0
        ||| self.root_height() < cs[0].0
        ||| self.spec_extension(cs).contains_key(0)
    }

    /// How a chain that applied a change set with entries `cs` relates to
    /// the chain `prev` it was applied to.
    pub open spec fn applied(self, prev: Self, cs: Seq<(u32, Option<bitcoin::BlockHash>)>) -> bool {
        if cs.len() == 0 {
            self == prev
        } else {
            let start = cs[0].0;
            let ext = prev.spec_extension(cs);
            &&& self.index_map() == map_below(prev.index_map(), start).union_prefer_right(ext)
            &&& blocks_to_map(self.tip_blocks()) == map_below(
                blocks_to_map(prev.tip_blocks()),
                start,
            ).union_prefer_right(ext)
            &&& self.spec_birthday() == prev.spec_birthday()
        }
    }

    /// Apply the given `changeset` to this chain: each `Some` entry sets the
    /// hash at its height, each `None` entry removes the block there, and
    /// the checkpoint list and index are rebuilt accordingly. A change set
    /// that would leave the chain without a reachable genesis entry is
    /// rejected whole: the chain is unchanged on error.
    pub fn apply_changeset(&mut self, changeset: &ChangeSet) -> (r: Result<(), MissingGenesisError>)
        ensures
            match r {
                Ok(()) => old(self).applies_ok(changeset@) && final(self).applied(
                    *old(self),
                    changeset@,
                ),
                Err(_) => *final(self) == *old(self) && !old(self).applies_ok(changeset@),
            },
    {
        proof {
            use_type_invariant(&*self);
            use_type_invariant(&self.tip);
            use_type_invariant(&self.index);
            use_type_invariant(changeset);
            lemma_cp_view_descending(&*self.tip.0);
        }
        let ghost ts = self.tip@;
        let ghost old_index = self.index@;
        let ghost cs_s = changeset@;
        let start = match changeset.first_key() {
            None => {
                return Ok(());
            },
            Some(k) => k,
        };
        proof {
            lemma_first_key_min(cs_s);
        }
        // changes at or above the point of agreement
        let (mut extension, base, k_g) = collect_from(&self.tip, start);
        let ghost k = k_g@;
        let ghost ext0 = map_from(blocks_to_map(ts), start);
        let n = changeset.len();
        let mut j: usize = 0;
        while j < n
            invariant
                n == cs_s.len(),
                changeset@ == cs_s,
                j <= n,
                entries_sorted(cs_s),
                extension.as_map() == changes_applied(ext0, entries_map(cs_s.take(j as int))),
            decreases n - j,
        {
            let key = changeset.key_at(j);
            let ghost m_j = entries_map(cs_s.take(j as int));
            proof {
                assert forall|a: int, b: int| 0 <= a < b < j implies cs_s.take(j as int)[a].0
                    < cs_s.take(j as int)[b].0 by {
                    assert(cs_s[a].0 < cs_s[b].0);
                }
                if j > 0 {
                    assert(cs_s.take(j as int).last().0 == cs_s[j - 1].0);
                    assert(cs_s[j - 1].0 < cs_s[j as int].0);
                }
                lemma_entries_map_push(cs_s.take(j as int), cs_s[j as int].0, cs_s[j as int].1);
                assert(cs_s.take(j + 1) =~= cs_s.take(j as int).push(cs_s[j as int]));
            }
            match changeset.val_at(j) {
                Some(hash) => {
                    extension.insert(key, hash);
                    proof {
                        assert(extension.as_map() =~= changes_applied(
                            ext0,
                            m_j.insert(key, Some(hash)),
                        ));
                    }
                },
                None => {
                    extension.remove(key);
                    proof {
                        assert(extension.as_map() =~= changes_applied(
                            ext0,
                            m_j.insert(key, None),
                        ));
                    }
                },
            }
            j += 1;
        }
        proof {
            assert(cs_s.take(n as int) =~= cs_s);
        }
        let ghost ext = changes_applied(ext0, entries_map(cs_s));
        proof {
            assert(extension.as_map() == ext);
            assert forall|h: u32| ext.contains_key(h) implies h >= start by {
                if entries_map(cs_s).contains_key(h) {
                    assert(cs_s[0].0 <= h);
                }
            }
            use_type_invariant(&extension);
        }
        // rebuild the tip
        let new_tip = match base {
            Some(base_cp) => {
                proof {
                    use_type_invariant(&base_cp);
                }
                let en = extension.len();
                let mut v: Vec<BlockId> = Vec::new();
                let mut i2: usize = 0;
                while i2 < en
                    invariant
                        en == extension@.len(),
                        i2 <= en,
                        entries_sorted(extension@),
                        v@ == ids_of(extension@.take(i2 as int)),
                    decreases en - i2,
                {
                    v.push(BlockId { height: extension.key_at(i2), hash: extension.val_at(i2) });
                    proof {
                        assert(v@ =~= ids_of(extension@.take(i2 + 1)));
                    }
                    i2 += 1;
                }
                proof {
                    assert(extension@.take(en as int) =~= extension@);
                    assert(base_cp@ == ts.skip(k));
                    assert(base_cp@[0] == ts[k]);
                    assert forall|a: int| 0 <= a < v@.len() implies #[trigger] v@[a].height
                        > base_cp@[0].height by {
                        lemma_entries_value(extension@, a);
                        assert(ext.contains_key(extension@[a].0));
                        assert(v@[a].height >= start);
                    }
                    assert forall|a: int, b: int| 0 <= a < b < v@.len() implies v@[a].height
                        < v@[b].height by {
                        assert(extension@[a].0 < extension@[b].0);
                    }
                }
                let t = match base_cp.extend(&v) {
                    Ok(t) => t,
                    Err(t) => {
                        proof {
                            assert(false);
                        }
                        t
                    },
                };
                proof {
                    let s1 = extension@.reverse();
                    let s2 = pairs_of(ts.skip(k));
                    assert(pairs_of(t@) =~= s1 + s2);
                    assert forall|a: int| 0 <= a < extension@.len() implies (
                    #[trigger] extension@[a]).0 >= start by {
                        lemma_entries_value(extension@, a);
                        assert(ext.contains_key(extension@[a].0));
                    }
                    assert forall|a: int| 0 <= a < s2.len() implies (#[trigger] s2[a]).0
                        < start by {
                        assert(s2[a].0 == ts[k + a].height);
                        if a > 0 {
                            assert(ts[k as int].height > ts[k + a].height);
                        }
                    }
                    assert forall|a: int, b: int| 0 <= a < b < (s1 + s2).len() implies (s1
                        + s2)[a].0 != (s1 + s2)[b].0 by {
                        if a < s1.len() && b < s1.len() {
                            assert(s1[a] == extension@[s1.len() - 1 - a]);
                            assert(s1[b] == extension@[s1.len() - 1 - b]);
                            assert(extension@[s1.len() - 1 - b].0 < extension@[s1.len() - 1
                                - a].0);
                        } else if a >= s1.len() && b >= s1.len() {
                            assert(ts[k + (a - s1.len())].height > ts[k + (b - s1.len())].height);
                        } else {
                            assert((s1 + s2)[a].0 >= start);
                            assert((s1 + s2)[b].0 < start);
                        }
                    }
                    lemma_entries_map_concat(s1, s2);
                    assert forall|a: int, b: int| 0 <= a < b < extension@.len() implies
                        extension@[a].0 != extension@[b].0 by {
                        assert(extension@[a].0 < extension@[b].0);
                    }
                    lemma_entries_map_reverse(extension@);
                    lemma_descending_unique(ts);
                    assert forall|h: u32|
                        entries_map(s2).contains_key(h) <==> (blocks_to_map(ts).contains_key(h)
                            && h < start) by {
                        if entries_contain_key(s2, h) {
                            let a = choose|a: int| 0 <= a < s2.len() && s2[a].0 == h;
                            assert(pairs_of(ts)[k + a].0 == h);
                        }
                        if entries_contain_key(pairs_of(ts), h) && h < start {
                            let a = choose|a: int|
                                0 <= a < pairs_of(ts).len() && pairs_of(ts)[a].0 == h;
                            assert(ts[a].height == h);
                            assert(a >= k);
                            assert(s2[a - k].0 == h);
                        }
                    }
                    assert forall|h: u32| entries_map(s2).contains_key(h) implies entries_map(
                        s2,
                    )[h] == blocks_to_map(ts)[h] by {
                        let a = choose|a: int| 0 <= a < s2.len() && s2[a].0 == h;
                        assert forall|x: int, y: int| 0 <= x < y < s2.len() implies s2[x].0
                            != s2[y].0 by {
                            assert(ts[k + x].height > ts[k + y].height);
                        }
                        lemma_entries_value_unique(s2, a);
                        assert(pairs_of(ts)[k + a] == s2[a]);
                        lemma_entries_value_unique(pairs_of(ts), k + a);
                    }
                    assert(entries_map(s2) =~= map_below(blocks_to_map(ts), start));
                    assert(blocks_to_map(t@) =~= map_below(
                        blocks_to_map(ts),
                        start,
                    ).union_prefer_right(ext));
                    assert(t@.last() == ts.last());
                    assert(ts.last().height <= ts[k as int].height) by {
                        if k < ts.len() - 1 {
                            assert(ts[k as int].height > ts[ts.len() - 1].height);
                        }
                    }
                }
                t
            },
            None => {
                // every tip block lies in the changed range; the extension
                // must itself contain the genesis entry
                let ghost ext_entries = extension@;
                let chain2 = match LocalChain::from_blocks(extension) {
                    Ok(c) => c,
                    Err(_) => {
                        proof {
                            lemma_cp_view_descending(&*self.tip.0);
                            assert(ts.take(k) =~= ts);
                            assert(ts.last().height >= start);
                            assert(!ext.contains_key(0));
                        }
                        return Err(MissingGenesisError);
                    },
                };
                proof {
                    use_type_invariant(&chain2);
                    assert(ext.contains_key(0));
                    assert(start == 0);
                    let nt = chain2.tip_blocks();
                    assert(pairs_of(nt) =~= ext_entries.reverse());
                    assert forall|a: int, b: int| 0 <= a < b < ext_entries.len() implies
                        ext_entries[a].0 != ext_entries[b].0 by {
                        assert(ext_entries[a].0 < ext_entries[b].0);
                    }
                    lemma_entries_map_reverse(ext_entries);
                    assert(blocks_to_map(nt) =~= ext);
                    assert(map_below(blocks_to_map(ts), start) =~= Map::<
                        u32,
                        bitcoin::BlockHash,
                    >::empty());
                    assert(blocks_to_map(nt) =~= map_below(
                        blocks_to_map(ts),
                        start,
                    ).union_prefer_right(ext));
                    assert(nt.last() == ids_of(ext_entries)[0]);
                    assert(nt.last().height == ext_entries[0].0);
                    assert(ext_entries[0].0 == 0) by {
                        let a = choose|a: int|
                            0 <= a < ext_entries.len() && ext_entries[a].0 == 0;
                        if a > 0 {
                            assert(ext_entries[0].0 < ext_entries[a].0);
                        }
                    }
                }
                chain2.tip()
            },
        };
        // rebuild the index: everything below the changed range survives,
        // the extension replaces everything at or above it
        let new_index_low = self.index.below(start);
        let mut new_index = new_index_low;
        let ghost low_s = new_index@;
        proof {
            use_type_invariant(&new_index);
        }
        {
            let ghost nt = new_tip@;
            proof {
                use_type_invariant(&new_tip);
                lemma_cp_view_descending(&*new_tip.0);
            }
            let (high_part, _b2, hk_g) = collect_from(&new_tip, start);
            let hn = high_part.len();
            let mut i3: usize = 0;
            proof {
                use_type_invariant(&high_part);
            }
            while i3 < hn
                invariant
                    hn == high_part@.len(),
                    i3 <= hn,
                    entries_sorted(high_part@),
                    entries_sorted(low_s),
                    forall|a: int| 0 <= a < low_s.len() ==> (#[trigger] low_s[a]).0 < start,
                    forall|a: int| 0 <= a < high_part@.len() ==> (#[trigger] high_part@[a]).0
                        >= start,
                    new_index@ == low_s + high_part@.take(i3 as int),
                decreases hn - i3,
            {
                let key = high_part.key_at(i3);
                let val = high_part.val_at(i3);
                proof {
                    if new_index@.len() > 0 {
                        let last = new_index@.last();
                        if i3 > 0 {
                            assert(last == high_part@[i3 - 1]);
                            assert(high_part@[i3 - 1].0 < high_part@[i3 as int].0);
                        } else {
                            assert(last == low_s.last());
                        }
                    }
                }
                new_index.append(key, val);
                proof {
                    assert(new_index@ =~= low_s + high_part@.take(i3 + 1));
                }
                i3 += 1;
            }
            proof {
                assert(high_part@.take(hn as int) =~= high_part@);
                assert forall|a: int, b: int|
                    0 <= a < b < (low_s + high_part@).len() implies (low_s + high_part@)[a].0 != (
                low_s + high_part@)[b].0 by {
                    if a < low_s.len() && b < low_s.len() {
                        assert(low_s[a].0 < low_s[b].0);
                    } else if a >= low_s.len() && b >= low_s.len() {
                        assert(high_part@[a - low_s.len()].0 < high_part@[b - low_s.len()].0);
                    } else {
                        assert(low_s[a].0 < start);
                        assert(high_part@[b - low_s.len()].0 >= start);
                    }
                }
                lemma_entries_map_concat(low_s, high_part@);
            }
        }
        let bd = self.birthday;
        proof {
            let nt = new_tip@;
            let old_idx_map = entries_map(old_index);
            let ts_map = blocks_to_map(ts);
            let new_idx_map = entries_map(new_index@);
            assert(map_from(blocks_to_map(nt), start) =~= ext);
            assert(new_idx_map =~= map_below(old_idx_map, start).union_prefer_right(ext));
            let root = nt.last().height;
            if k < ts.len() {
                assert(ts.last().height <= ts[k].height) by {
                    if k < ts.len() - 1 {
                        assert(ts[k].height > ts[ts.len() - 1].height);
                    }
                }
                assert(root == ts.last().height);
                assert forall|h: u32|
                    map_from(new_idx_map, root).contains_key(h) <==> blocks_to_map(
                        nt,
                    ).contains_key(h) by {
                    if ext.contains_key(h) {
                        assert(h >= start);
                    }
                    if old_idx_map.contains_key(h) && h < start && h >= root {
                        assert(map_from(old_idx_map, root).contains_key(h));
                        assert(ts_map.contains_key(h));
                    }
                    if ts_map.contains_key(h) && h < start {
                        assert(map_from(old_idx_map, root).contains_key(h) || h < root);
                        let a = choose|a: int|
                            0 <= a < pairs_of(ts).len() && pairs_of(ts)[a].0 == h;
                        assert(ts[a].height == h);
                        if a < ts.len() - 1 {
                            assert(ts[a].height > ts[ts.len() - 1].height);
                        }
                        assert(h >= root);
                    }
                }
                assert forall|h: u32| map_from(new_idx_map, root).contains_key(h) implies map_from(
                    new_idx_map,
                    root,
                )[h] == blocks_to_map(nt)[h] by {
                    if !ext.contains_key(h) {
                        assert(old_idx_map.contains_key(h) && h < start && h >= root);
                        assert(map_from(old_idx_map, root)[h] == ts_map[h]);
                    }
                }
                assert(map_from(new_idx_map, root) =~= blocks_to_map(nt));
            } else {
                assert(start == 0);
                assert(map_below(old_idx_map, 0) =~= Map::<u32, bitcoin::BlockHash>::empty());
                assert(new_idx_map =~= ext);
                assert(map_from(new_idx_map, root) =~= blocks_to_map(nt));
            }
            assert(entries_map(new_index@).contains_key(0)) by {
                if start > 0 {
                    assert(old_idx_map.contains_key(0));
                    assert(map_below(old_idx_map, start).contains_key(0));
                } else {
                    assert(ext.contains_key(0));
                }
            }
            if k < ts.len() {
                assert(ts.last().height < start);
            }
        }
        *self = LocalChain { tip: new_tip, index: new_index, birthday: bd };
        Ok(())
    }
}

/// The height-to-hash map described by the `Some` entries of a change set.
pub open spec fn somes_of(cs: Map<u32, Option<bitcoin::BlockHash>>) -> Map<u32, bitcoin::BlockHash> {
    Map::new(|h: u32| cs.contains_key(h) && cs[h] is Some, |h: u32| cs[h]->0)
}

/// The change-set entries that disconnecting at `from` applies to a chain
/// whose index entries are `s`: a removal entry for every indexed height at
/// or above `from`.
pub open spec fn removal_entries(s: Seq<(u32, bitcoin::BlockHash)>, from: u32) -> Seq<
    (u32, Option<bitcoin::BlockHash>),
>
    decreases s.len(),
{
    if s.len() == 0 {
        Seq::empty()
    } else if s.last().0 >= from {
        removal_entries(s.drop_last(), from).push((s.last().0, None))
    } else {
        removal_entries(s.drop_last(), from)
    }
}

/// When every entry before `cut` lies below `from` and every entry from
/// `cut` on lies at or above it, the removal entries are exactly the
/// suffix from `cut`, with each value replaced by `None`.
proof fn lemma_removal_entries_suffix(s: Seq<(u32, bitcoin::BlockHash)>, from: u32, cut: int)
    requires
        0 <= cut <= s.len(),
        forall|i: int| 0 <= i < cut ==> (#[trigger] s[i]).0 < from,
        forall|i: int| cut <= i < s.len() ==> (#[trigger] s[i]).0 >= from,
    ensures
        removal_entries(s, from).len() == s.len() - cut,
        forall|i: int|
            0 <= i < s.len() - cut ==> #[trigger] removal_entries(s, from)[i] == (
                s[cut + i].0,
                None::<bitcoin::BlockHash>,
            ),
    decreases s.len(),
{
    if s.len() == 0 {
    } else {
        let d = s.drop_last();
        if cut == s.len() {
            lemma_removal_entries_suffix(d, from, cut - 1);
            assert(removal_entries(s, from) =~= removal_entries(d, from));
        } else {
            lemma_removal_entries_suffix(d, from, cut);
            assert(removal_entries(s, from) =~= removal_entries(d, from).push(
                (s.last().0, None::<bitcoin::BlockHash>),
            ));
            assert forall|i: int| 0 <= i < s.len() - cut implies #[trigger] removal_entries(
                s,
                from,
            )[i] == (s[cut + i].0, None::<bitcoin::BlockHash>) by {
                if i < s.len() - cut - 1 {
                    assert(removal_entries(s, from)[i] == removal_entries(d, from)[i]);
                    assert(d[cut + i] == s[cut + i]);
                }
            }
        }
    }
}

impl LocalChain {
    /// Construct a [`LocalChain`] from an initial `changeset`: it must set a
    /// genesis hash at height 0, and the resulting chain holds exactly the
    /// change set's `Some` entries.
    pub fn from_changeset(changeset: ChangeSet) -> (r: Result<Self, MissingGenesisError>)
        ensures
            match r {
                Ok(c) => {
                    &&& entries_map(changeset@).contains_key(0)
                    &&& entries_map(changeset@)[0] is Some
                    &&& c.index_map() == somes_of(entries_map(changeset@))
                    &&& blocks_to_map(c.tip_blocks()) == somes_of(entries_map(changeset@))
                    &&& c.spec_birthday() == 0
                },
                Err(_) => !(entries_map(changeset@).contains_key(0) && entries_map(changeset@)[0]
                    is Some),
            },
    {
        proof {
            use_type_invariant(&changeset);
        }
        let ghost cs_s = changeset@;
        let genesis_hash = match changeset.get(0) {
            Some(Some(h)) => h,
            Some(None) => {
                return Err(MissingGenesisError);
            },
            None => {
                return Err(MissingGenesisError);
            },
        };
        let (mut chain, _) = Self::from_genesis_hash(genesis_hash);
        proof {
            lemma_first_key_min(cs_s);
            let a = choose|a: int| 0 <= a < cs_s.len() && cs_s[a].0 == 0;
            assert(cs_s[0].0 <= 0);
            assert(cs_s[0].0 == 0);
            assert(chain.root_height() == 0);
            let ext = chain.spec_extension(cs_s);
            assert(ext.contains_key(0));
            assert(chain.applies_ok(cs_s));
        }
        match chain.apply_changeset(&changeset) {
            Ok(()) => {
                proof {
                    let cs_map = entries_map(cs_s);
                    let ext = changes_applied(
                        map_from(blocks_to_map(seq![BlockId { height: 0u32, hash: genesis_hash }]), 0),
                        cs_map,
                    );
                    lemma_entries_value(pairs_of(seq![BlockId { height: 0u32, hash: genesis_hash }]), 0);
                    assert(chain.index_map() =~= somes_of(cs_map));
                    assert(blocks_to_map(chain.tip_blocks()) =~= somes_of(cs_map));
                }
                Ok(chain)
            },
            Err(_) => {
                proof {
                    assert(false);
                }
                Err(MissingGenesisError)
            },
        }
    }

    /// Insert a block id into the chain.
    ///
    /// # Errors
    ///
    /// Replacing the hash of an existing checkpoint is refused, as is an
    /// insertion below the reachable part of a chain without a linked
    /// genesis checkpoint; the chain is unchanged on error.
    pub fn insert_block(&mut self, block_id: BlockId) -> (r: Result<ChangeSet, AlterCheckPointError>)
        ensures
            match r {
                Ok(cs) => {
                    if old(self).index_map().contains_key(block_id.height) {
                        &&& old(self).index_map()[block_id.height] == block_id.hash
                        &&& cs@.len() == 0
                        &&& *final(self) == *old(self)
                    } else {
                        &&& cs@ == seq![(block_id.height, Some(block_id.hash))]
                        &&& old(self).applies_ok(cs@)
                        &&& final(self).applied(*old(self), cs@)
                    }
                },
                Err(e) => {
                    &&& *final(self) == *old(self)
                    &&& if old(self).index_map().contains_key(block_id.height) {
                        &&& old(self).index_map()[block_id.height] != block_id.hash
                        &&& e == (AlterCheckPointError {
                            height: block_id.height,
                            original_hash: old(self).index_map()[block_id.height],
                            update_hash: Some(block_id.hash),
                        })
                    } else {
                        &&& !old(self).applies_ok(seq![(block_id.height, Some(block_id.hash))])
                        &&& e == (AlterCheckPointError {
                            height: 0,
                            original_hash: old(self).index_map()[0],
                            update_hash: None,
                        })
                    }
                },
            },
    {
        match self.index.get(block_id.height) {
            Some(original_hash) => {
                if original_hash == block_id.hash {
                    Ok(BlockMap::new())
                } else {
                    Err(
                        AlterCheckPointError {
                            height: block_id.height,
                            original_hash,
                            update_hash: Some(block_id.hash),
                        },
                    )
                }
            },
            None => {
                proof {
                    use_type_invariant(&*self);
                }
                let mut cs: ChangeSet = BlockMap::new();
                cs.insert(block_id.height, Some(block_id.hash));
                proof {
                    use_type_invariant(&cs);
                    assert(cs.as_map().contains_key(block_id.height));
                    assert(cs@.len() == 1);
                    lemma_entries_value(cs@, 0);
                    assert(cs.as_map().contains_key(cs@[0].0));
                    assert(cs@ =~= seq![(block_id.height, Some(block_id.hash))]);
                }
                match self.apply_changeset(&cs) {
                    Ok(()) => Ok(cs),
                    Err(_) => {
                        let g = self.genesis_hash();
                        Err(AlterCheckPointError { height: 0, original_hash: g, update_hash: None })
                    },
                }
            },
        }
    }

    /// Removes blocks at and above the height of `block_id`, but only if
    /// `block_id` itself is present in the chain.
    ///
    /// # Errors
    ///
    /// Disconnecting at or below the tip list's root (in particular, at the
    /// genesis block) would leave no reachable genesis checkpoint and fails;
    /// the chain is unchanged on error.
    pub fn disconnect_from(&mut self, block_id: BlockId) -> (r: Result<ChangeSet, MissingGenesisError>)
        ensures
            match r {
                Ok(cs) => {
                    if old(self).index_map().contains_key(block_id.height) && old(
                        self,
                    ).index_map()[block_id.height] == block_id.hash {
                        &&& cs@ == removal_entries(old(self).index_entries(), block_id.height)
                        &&& cs@.len() > 0 && cs@[0].0 == block_id.height
                        &&& cs.as_map() == (Map::new(
                            |h: u32|
                                old(self).index_map().contains_key(h) && h >= block_id.height,
                            |h: u32| None::<bitcoin::BlockHash>,
                        ))
                        &&& old(self).applies_ok(cs@)
                        &&& final(self).applied(*old(self), cs@)
                    } else {
                        &&& cs@.len() == 0
                        &&& *final(self) == *old(self)
                    }
                },
                Err(_) => {
                    &&& *final(self) == *old(self)
                    &&& old(self).index_map().contains_key(block_id.height)
                    &&& old(self).index_map()[block_id.height] == block_id.hash
                    &&& !old(self).applies_ok(
                        removal_entries(old(self).index_entries(), block_id.height),
                    )
                },
            },
    {
        proof {
            use_type_invariant(&*self);
            use_type_invariant(&self.index);
        }
        let ghost idx_s = self.index@;
        let matches_here = match self.index.get(block_id.height) {
            Some(h) => h == block_id.hash,
            None => false,
        };
        if !matches_here {
            return Ok(BlockMap::new());
        }
        let n = self.index.len();
        let mut i: usize = 0;
        while i < n && self.index.key_at(i) < block_id.height
            invariant
                n == idx_s.len(),
                self.index@ == idx_s,
                i <= n,
                entries_sorted(idx_s),
                forall|a: int| 0 <= a < i ==> (#[trigger] idx_s[a]).0 < block_id.height,
            decreases n - i,
        {
            i += 1;
        }
        let ghost cut = i as int;
        proof {
            assert forall|a: int| cut <= a < n implies (#[trigger] idx_s[a]).0
                >= block_id.height by {
                if a > cut {
                    assert(idx_s[cut].0 < idx_s[a].0);
                }
            }
        }
        let ghost none_target = idx_s.map_values(
            |e: (u32, bitcoin::BlockHash)| (e.0, None::<bitcoin::BlockHash>),
        );
        let mut cs: ChangeSet = BlockMap::new();
        let mut j: usize = i;
        while j < n
            invariant
                n == idx_s.len(),
                self.index@ == idx_s,
                0 <= cut <= j <= n,
                entries_sorted(idx_s),
                none_target.len() == idx_s.len(),
                forall|a: int| 0 <= a < idx_s.len() ==> #[trigger] none_target[a] == (
                    idx_s[a].0,
                    None::<bitcoin::BlockHash>,
                ),
                forall|a: int| 0 <= a < cut ==> (#[trigger] idx_s[a]).0 < block_id.height,
                forall|a: int| cut <= a < n ==> (#[trigger] idx_s[a]).0 >= block_id.height,
                cs@ == none_target.subrange(cut, j as int),
            decreases n - j,
        {
            proof {
                assert(entries_sorted(idx_s));
                assert(cut <= j < n);
                if j > cut {
                    assert(0 <= j - 1 < idx_s.len());
                    assert(idx_s[j - 1].0 < idx_s[j as int].0);
                    assert(cs@.last() == none_target[j - 1]);
                }
            }
            cs.append(self.index.key_at(j), None);
            proof {
                assert(cs@ =~= none_target.subrange(cut, j + 1));
            }
            j += 1;
        }
        proof {
            use_type_invariant(&cs);
            lemma_removal_entries_suffix(idx_s, block_id.height, cut);
            assert(cs@ =~= removal_entries(idx_s, block_id.height));
            // the entry for block_id.height sits at or above `cut`
            let b = choose|b: int| 0 <= b < idx_s.len() && idx_s[b].0 == block_id.height;
            assert(b >= cut);
            assert(cs@.len() > 0);
            assert(cs@[0].0 == idx_s[cut].0);
            assert(idx_s[cut].0 == block_id.height) by {
                if b > cut {
                    assert(idx_s[cut].0 < idx_s[b].0);
                    assert(idx_s[cut].0 >= block_id.height);
                }
            }
            assert forall|h: u32|
                cs.as_map().contains_key(h) <==> (entries_map(idx_s).contains_key(h) && h
                    >= block_id.height) by {
                if entries_contain_key(cs@, h) {
                    let a = choose|a: int| 0 <= a < cs@.len() && cs@[a].0 == h;
                    assert(idx_s[cut + a].0 == h);
                }
                if entries_contain_key(idx_s, h) && h >= block_id.height {
                    let a = choose|a: int| 0 <= a < idx_s.len() && idx_s[a].0 == h;
                    assert(a >= cut);
                    assert(cs@[a - cut].0 == h);
                }
            }
            assert(cs.as_map() =~= Map::new(
                |h: u32| entries_map(idx_s).contains_key(h) && h >= block_id.height,
                |h: u32| None::<bitcoin::BlockHash>,
            )) by {
                assert forall|h: u32| cs.as_map().contains_key(h) implies cs.as_map()[h]
                    == None::<bitcoin::BlockHash> by {
                    let a = choose|a: int| 0 <= a < cs@.len() && cs@[a].0 == h;
                    lemma_entries_value(cs@, a);
                }
            }
        }
        match self.apply_changeset(&cs) {
            Ok(()) => Ok(cs),
            Err(_) => Err(MissingGenesisError),
        }
    }

    /// Whether `block` is in the best chain whose tip is `chain_tip`: `None`
    /// when the chain cannot answer (a height is not indexed, or `block`
    /// lies above the given tip).
    pub fn is_block_in_chain(&self, block: BlockId, chain_tip: BlockId) -> (r: Result<
        Option<bool>,
        core::convert::Infallible,
    >)
        ensures
            r == Ok::<Option<bool>, core::convert::Infallible>(
                if block.height > chain_tip.height {
                    None
                } else if self.index_map().contains_key(block.height) && self.index_map().contains_key(
                    chain_tip.height,
                ) {
                    Some(
                        self.index_map()[block.height] == block.hash
                            && self.index_map()[chain_tip.height] == chain_tip.hash,
                    )
                } else {
                    None
                },
            ),
    {
        if block.height > chain_tip.height {
            return Ok(None);
        }
        match (self.index.get(block.height), self.index.get(chain_tip.height)) {
            (Some(cp), Some(tip_cp)) => Ok(
                Some(cp == block.hash && tip_cp == chain_tip.hash),
            ),
            _ => Ok(None),
        }
    }

    /// The block id of the tip.
    pub fn get_chain_tip(&self) -> (r: Result<BlockId, core::convert::Infallible>)
        ensures
            r == Ok::<BlockId, core::convert::Infallible>(self.tip_blocks()[0]),
    {
        Ok(self.tip.block_id())
    }
}

/// The outcome of the merge loop's final connectivity check: without a
/// point of agreement, the whole original chain must have been invalidated,
/// else the merge fails, hinting at the lowest unmatched original height.
pub open spec fn merge_finish(
    poa: bool,
    inval: bool,
    prev_o: Option<BlockId>,
    cs: Map<u32, Option<bitcoin::BlockHash>>,
) -> Result<Map<u32, Option<bitcoin::BlockHash>>, u32> {
    if !inval && !poa && prev_o is Some {
        Err(prev_o->0.height)
    } else {
        Ok(cs)
    }
}

/// Removal entries for each height in `pot`.
pub open spec fn nones_of(pot: Seq<u32>) -> Map<u32, Option<bitcoin::BlockHash>> {
    Map::new(|h: u32| pot.contains(h), |h: u32| None::<bitcoin::BlockHash>)
}

/// One walk of the merge over the two descending chains `o` and `u`, with
/// the loop state spelled out: the previous cursors, whether a point of
/// agreement was found, whether the last original block was invalidated,
/// the potentially invalidated heights, and the change set built so far.
pub open spec fn merge_step(
    o: Seq<BlockId>,
    u: Seq<BlockId>,
    prev_o: Option<BlockId>,
    prev_u: Option<BlockId>,
    poa: bool,
    inval: bool,
    pot: Seq<u32>,
    cs: Map<u32, Option<bitcoin::BlockHash>>,
    older: bool,
) -> Result<Map<u32, Option<bitcoin::BlockHash>>, u32>
    decreases o.len() + u.len(),
{
    if o.len() == 0 && u.len() == 0 {
        merge_finish(poa, inval, prev_o, cs)
    } else if u.len() > 0 && (o.len() == 0 || u[0].height > o[0].height) {
        // update block that does not exist in the original chain
        merge_step(
            o,
            u.skip(1),
            prev_o,
            Some(u[0]),
            poa,
            inval,
            pot,
            cs.insert(u[0].height, Some(u[0].hash)),
            older,
        )
    } else if o.len() > 0 && (u.len() == 0 || o[0].height > u[0].height) {
        // original block that is not in the update
        if u.len() == 0 {
            merge_finish(poa, false, Some(o[0]), cs)
        } else {
            merge_step(o.skip(1), u, Some(o[0]), prev_u, poa, false, pot.push(o[0].height), cs, older)
        }
    } else {
        // both cursors hold a block at the same height
        if o[0].hash == u[0].hash {
            if !inval && !poa && prev_o is Some && prev_u is Some {
                Err(prev_o->0.height)
            } else if !older {
                Ok(cs)
            } else {
                merge_step(o.skip(1), u.skip(1), Some(o[0]), Some(u[0]), true, false, pot, cs, older)
            }
        } else {
            merge_step(
                o.skip(1),
                u.skip(1),
                Some(o[0]),
                Some(u[0]),
                poa,
                true,
                Seq::empty(),
                cs.insert(u[0].height, Some(u[0].hash)).union_prefer_right(nones_of(pot)),
                older,
            )
        }
    }
}

/// What merging an update chain into an original chain produces: either the
/// change set that turns the original into the update where they differ, or
/// the height the caller should include to connect the two unambiguously.
pub open spec fn merge_spec(o: Seq<BlockId>, u: Seq<BlockId>, older: bool) -> Result<
    Map<u32, Option<bitcoin::BlockHash>>,
    u32,
> {
    merge_step(o, u, None, None, false, false, Seq::empty(), Map::empty(), older)
}

/// After a point of agreement, walking two identical tails adds nothing to
/// the change set.
proof fn lemma_merge_identical_tails(
    o: Seq<BlockId>,
    prev_o: Option<BlockId>,
    prev_u: Option<BlockId>,
    pot: Seq<u32>,
    cs: Map<u32, Option<bitcoin::BlockHash>>,
)
    ensures
        merge_step(o, o, prev_o, prev_u, true, false, pot, cs, true) == Ok::<
            Map<u32, Option<bitcoin::BlockHash>>,
            u32,
        >(cs),
    decreases o.len(),
{
    if o.len() > 0 {
        lemma_merge_identical_tails(o.skip(1), Some(o[0]), Some(o[0]), pot, cs);
    }
}

/// The view of an optional cursor: the blocks it still covers.
pub open spec fn oc_seq(c: Option<CheckPoint>) -> Seq<BlockId> {
    match c {
        Some(cp) => cp@,
        None => Seq::empty(),
    }
}

/// The block id an optional cursor points at.
pub open spec fn oc_id(c: Option<CheckPoint>) -> Option<BlockId> {
    match c {
        Some(cp) => Some(cp@[0]),
        None => None,
    }
}

/// Merges an update chain into the original chain by walking both from the
/// tip downward in tandem, always handling the highest remaining block
/// first; returns the change set turning the original into the merged
/// chain, or fails when the update does not connect unambiguously.
pub(crate) fn merge_chains(
    original_tip: CheckPoint,
    update_tip: CheckPoint,
    introduce_older_blocks: bool,
) -> (r: Result<ChangeSet, CannotConnectError>)
    ensures
        match r {
            Ok(cs) => merge_spec(original_tip@, update_tip@, introduce_older_blocks) == Ok::<
                Map<u32, Option<bitcoin::BlockHash>>,
                u32,
            >(cs.as_map()),
            Err(e) => merge_spec(original_tip@, update_tip@, introduce_older_blocks) == Err::<
                Map<u32, Option<bitcoin::BlockHash>>,
                u32,
            >(e.try_include_height),
        },
{
    let ghost target = merge_spec(original_tip@, update_tip@, introduce_older_blocks);
    let mut changeset: ChangeSet = BlockMap::new();
    let mut curr_orig: Option<CheckPoint> = Some(original_tip);
    let mut curr_update: Option<CheckPoint> = Some(update_tip);
    let mut prev_orig: Option<CheckPoint> = None;
    let mut prev_update: Option<CheckPoint> = None;
    let mut point_of_agreement_found: bool = false;
    let mut prev_orig_was_invalidated: bool = false;
    let mut potentially_invalidated_heights: Vec<u32> = Vec::new();
    loop
        invariant_except_break
            target == merge_spec(original_tip@, update_tip@, introduce_older_blocks),
            merge_step(
                oc_seq(curr_orig),
                oc_seq(curr_update),
                oc_id(prev_orig),
                oc_id(prev_update),
                point_of_agreement_found,
                prev_orig_was_invalidated,
                potentially_invalidated_heights@,
                changeset.as_map(),
                introduce_older_blocks,
            ) == target,
        ensures
            target == merge_spec(original_tip@, update_tip@, introduce_older_blocks),
            merge_finish(
                point_of_agreement_found,
                prev_orig_was_invalidated,
                oc_id(prev_orig),
                changeset.as_map(),
            ) == target,
        decreases oc_seq(curr_orig).len() + oc_seq(curr_update).len(),
    {
        let ghost s_o = oc_seq(curr_orig);
        let ghost s_u = oc_seq(curr_update);
        let ghost s_po = oc_id(prev_orig);
        let ghost s_pu = oc_id(prev_update);
        let ghost poa0 = point_of_agreement_found;
        let ghost inv0 = prev_orig_was_invalidated;
        let ghost pot0 = potentially_invalidated_heights@;
        let ghost cs0 = changeset.as_map();
        let o_height: Option<u32> = match &curr_orig {
            Some(cp) => Some(cp.height()),
            None => None,
        };
        let u_height: Option<u32> = match &curr_update {
            Some(cp) => Some(cp.height()),
            None => None,
        };
        proof {
            assert(o_height == (if s_o.len() == 0 {
                None
            } else {
                Some(s_o[0].height)
            }));
            assert(u_height == (if s_u.len() == 0 {
                None
            } else {
                Some(s_u[0].height)
            }));
        }
        let take_update: bool = match (o_height, u_height) {
            (None, Some(_)) => true,
            (Some(oh), Some(uh)) => uh > oh,
            _ => false,
        };
        let take_orig: bool = match (o_height, u_height) {
            (Some(_), None) => true,
            (Some(oh), Some(uh)) => oh > uh,
            _ => false,
        };
        if take_update {
            // update block that does not exist in the original chain
            let u = match curr_update {
                Some(cp) => cp,
                None => {
                    proof {
                        assert(false);
                    }
                    return Err(CannotConnectError { try_include_height: 0 });
                },
            };
            proof {
                assert(u@ == s_u);
            }
            changeset.insert(u.height(), Some(u.hash()));
            curr_update = u.prev();
            prev_update = Some(u);
            proof {
                assert(oc_seq(curr_update) =~= s_u.skip(1));
                assert(oc_id(prev_update) == Some(s_u[0]));
                assert(merge_step(
                    s_o,
                    s_u,
                    s_po,
                    s_pu,
                    poa0,
                    inv0,
                    pot0,
                    cs0,
                    introduce_older_blocks,
                ) == merge_step(
                    s_o,
                    s_u.skip(1),
                    s_po,
                    Some(s_u[0]),
                    poa0,
                    inv0,
                    pot0,
                    cs0.insert(s_u[0].height, Some(s_u[0].hash)),
                    introduce_older_blocks,
                ));
            }
        } else if take_orig {
            // original block that is not in the update; if the update is
            // exhausted nothing more can reach the change set
            let o = match curr_orig {
                Some(cp) => cp,
                None => {
                    proof {
                        assert(false);
                    }
                    return Err(CannotConnectError { try_include_height: 0 });
                },
            };
            proof {
                assert(o@ == s_o);
            }
            potentially_invalidated_heights.push(o.height());
            prev_orig_was_invalidated = false;
            curr_orig = o.prev();
            prev_orig = Some(o);
            proof {
                assert(oc_seq(curr_orig) =~= s_o.skip(1));
                assert(oc_id(prev_orig) == Some(s_o[0]));
            }
            if u_height.is_none() {
                proof {
                    assert(s_u.len() == 0);
                    assert(merge_step(
                        s_o,
                        s_u,
                        s_po,
                        s_pu,
                        poa0,
                        inv0,
                        pot0,
                        cs0,
                        introduce_older_blocks,
                    ) == merge_finish(poa0, false, Some(s_o[0]), cs0));
                }
                break;
            }
            proof {
                assert(merge_step(
                    s_o,
                    s_u,
                    s_po,
                    s_pu,
                    poa0,
                    inv0,
                    pot0,
                    cs0,
                    introduce_older_blocks,
                ) == merge_step(
                    s_o.skip(1),
                    s_u,
                    Some(s_o[0]),
                    s_pu,
                    poa0,
                    false,
                    pot0.push(s_o[0].height),
                    cs0,
                    introduce_older_blocks,
                ));
            }
        } else if o_height.is_none() && u_height.is_none() {
            proof {
                assert(s_o.len() == 0 && s_u.len() == 0);
                assert(merge_step(
                    s_o,
                    s_u,
                    s_po,
                    s_pu,
                    poa0,
                    inv0,
                    pot0,
                    cs0,
                    introduce_older_blocks,
                ) == merge_finish(poa0, inv0, s_po, cs0));
            }
            break;
        } else {
            // both chains hold a block at the same height
            let o = match curr_orig {
                Some(cp) => cp,
                None => {
                    proof {
                        assert(false);
                    }
                    return Err(CannotConnectError { try_include_height: 0 });
                },
            };
            let u = match curr_update {
                Some(cp) => cp,
                None => {
                    proof {
                        assert(false);
                    }
                    return Err(CannotConnectError { try_include_height: 0 });
                },
            };
            proof {
                assert(o@ == s_o);
                assert(u@ == s_u);
                assert(s_o.len() > 0 && s_u.len() > 0);
                assert(s_o[0].height == s_u[0].height);
            }
            if o.hash() == u.hash() {
                // point of agreement: the previous original block must have
                // been explicitly invalidated, unless one side had no block
                // above this height
                if !prev_orig_was_invalidated && !point_of_agreement_found {
                    if prev_orig.is_some() && prev_update.is_some() {
                        let po = match &prev_orig {
                            Some(cp) => cp,
                            None => {
                                proof {
                                    assert(false);
                                }
                                return Err(CannotConnectError { try_include_height: 0 });
                            },
                        };
                        proof {
                            assert(s_po is Some && s_pu is Some);
                            assert((*po)@[0] == s_po->0);
                            assert(merge_step(
                                s_o,
                                s_u,
                                s_po,
                                s_pu,
                                poa0,
                                inv0,
                                pot0,
                                cs0,
                                introduce_older_blocks,
                            ) == Err::<Map<u32, Option<bitcoin::BlockHash>>, u32>(
                                s_po->0.height,
                            ));
                        }
                        return Err(CannotConnectError { try_include_height: po.height() });
                    }
                }
                point_of_agreement_found = true;
                prev_orig_was_invalidated = false;
                if !introduce_older_blocks {
                    proof {
                        assert(merge_step(
                            s_o,
                            s_u,
                            s_po,
                            s_pu,
                            poa0,
                            inv0,
                            pot0,
                            cs0,
                            introduce_older_blocks,
                        ) == Ok::<Map<u32, Option<bitcoin::BlockHash>>, u32>(cs0));
                    }
                    return Ok(changeset);
                }
                if same_node(&o, &u) {
                    // the two handles share the shared tail: no older
                    // blocks can be introduced below this point
                    proof {
                        assert(o@.skip(1) == u@.skip(1));
                        lemma_merge_identical_tails(
                            s_o.skip(1),
                            Some(s_o[0]),
                            Some(s_u[0]),
                            pot0,
                            cs0,
                        );
                        assert(merge_step(
                            s_o,
                            s_u,
                            s_po,
                            s_pu,
                            poa0,
                            inv0,
                            pot0,
                            cs0,
                            introduce_older_blocks,
                        ) == Ok::<Map<u32, Option<bitcoin::BlockHash>>, u32>(cs0));
                    }
                    return Ok(changeset);
                }
                curr_orig = o.prev();
                curr_update = u.prev();
                prev_orig = Some(o);
                prev_update = Some(u);
                proof {
                    assert(oc_seq(curr_orig) =~= s_o.skip(1));
                    assert(oc_seq(curr_update) =~= s_u.skip(1));
                    assert(merge_step(
                        s_o,
                        s_u,
                        s_po,
                        s_pu,
                        poa0,
                        inv0,
                        pot0,
                        cs0,
                        introduce_older_blocks,
                    ) == merge_step(
                        s_o.skip(1),
                        s_u.skip(1),
                        Some(s_o[0]),
                        Some(s_u[0]),
                        true,
                        false,
                        pot0,
                        cs0,
                        introduce_older_blocks,
                    ));
                }
            } else {
                // invalidation: take the update hash at this height and
                // purge the original-only blocks above it
                changeset.insert(u.height(), Some(u.hash()));
                let ghost cs_mid = changeset.as_map();
                let ghost pot = potentially_invalidated_heights@;
                let pn = potentially_invalidated_heights.len();
                let mut pi: usize = 0;
                proof {
                    assert(changeset.as_map() =~= cs_mid.union_prefer_right(
                        nones_of(pot.take(0)),
                    ));
                }
                while pi < pn
                    invariant
                        pn == pot.len(),
                        potentially_invalidated_heights@ == pot,
                        pi <= pn,
                        changeset.as_map() == cs_mid.union_prefer_right(
                            nones_of(pot.take(pi as int)),
                        ),
                    decreases pn - pi,
                {
                    changeset.insert(potentially_invalidated_heights[pi], None);
                    proof {
                        let t1 = pot.take(pi as int);
                        let t2 = pot.take(pi + 1);
                        assert(t2 =~= t1.push(pot[pi as int]));
                        assert forall|h: u32|
                            t2.contains(h) <==> (t1.contains(h) || h == pot[pi as int]) by {
                            if t2.contains(h) {
                                let a = choose|a: int| 0 <= a < t2.len() && t2[a] == h;
                                if a < pi {
                                    assert(t1[a] == h);
                                }
                            }
                            if t1.contains(h) {
                                let a = choose|a: int| 0 <= a < t1.len() && t1[a] == h;
                                assert(t2[a] == h);
                            }
                            assert(t2[pi as int] == pot[pi as int]);
                        }
                        assert(changeset.as_map() =~= cs_mid.union_prefer_right(nones_of(t2)));
                    }
                    pi += 1;
                }
                proof {
                    assert(pot.take(pn as int) =~= pot);
                }
                potentially_invalidated_heights = Vec::new();
                prev_orig_was_invalidated = true;
                curr_orig = o.prev();
                curr_update = u.prev();
                prev_orig = Some(o);
                prev_update = Some(u);
                proof {
                    assert(oc_seq(curr_orig) =~= s_o.skip(1));
                    assert(oc_seq(curr_update) =~= s_u.skip(1));
                    assert(changeset.as_map() == cs0.insert(
                        s_u[0].height,
                        Some(s_u[0].hash),
                    ).union_prefer_right(nones_of(pot0)));
                    assert(merge_step(
                        s_o,
                        s_u,
                        s_po,
                        s_pu,
                        poa0,
                        inv0,
                        pot0,
                        cs0,
                        introduce_older_blocks,
                    ) == merge_step(
                        s_o.skip(1),
                        s_u.skip(1),
                        Some(s_o[0]),
                        Some(s_u[0]),
                        poa0,
                        true,
                        Seq::empty(),
                        cs0.insert(s_u[0].height, Some(s_u[0].hash)).union_prefer_right(
                            nones_of(pot0),
                        ),
                        introduce_older_blocks,
                    ));
                }
            }
        }
    }
    // without a point of agreement the connection is implicitly at the
    // genesis block, which requires the entire original chain to have been
    // invalidated
    if !prev_orig_was_invalidated && !point_of_agreement_found {
        match &prev_orig {
            Some(po) => {
                return Err(CannotConnectError { try_include_height: po.height() });
            },
            None => {},
        }
    }
    Ok(changeset)
}

impl LocalChain {
    /// Applies an `update` to the chain: merges the update's tip into the
    /// current one and applies the resulting [`ChangeSet`], atomically.
    ///
    /// # Errors
    ///
    /// Fails when the update cannot connect unambiguously with the chain
    /// (see [`Update`]); the chain is unchanged on error.
    pub fn apply_update(&mut self, update: Update) -> (r: Result<ChangeSet, CannotConnectError>)
        ensures
            match r {
                Ok(cs) => {
                    &&& merge_spec(
                        old(self).tip_blocks(),
                        update.tip@,
                        update.introduce_older_blocks,
                    ) == Ok::<Map<u32, Option<bitcoin::BlockHash>>, u32>(cs.as_map())
                    &&& old(self).applies_ok(cs@)
                    &&& final(self).applied(*old(self), cs@)
                },
                Err(e) => {
                    &&& *final(self) == *old(self)
                    &&& match merge_spec(
                        old(self).tip_blocks(),
                        update.tip@,
                        update.introduce_older_blocks,
                    ) {
                        Err(h) => e.try_include_height == h,
                        Ok(m) => e.try_include_height == 0 && (exists|cs_entries: Seq<
                            (u32, Option<bitcoin::BlockHash>),
                        >|
                            entries_map(cs_entries) == m && !(#[trigger] old(self).applies_ok(
                                cs_entries,
                            ))),
                    }
                },
            },
    {
        proof {
            use_type_invariant(&*self);
        }
        let changeset = match merge_chains(
            self.tip.clone(),
            update.tip,
            update.introduce_older_blocks,
        ) {
            Ok(cs) => cs,
            Err(e) => {
                return Err(e);
            },
        };
        match self.apply_changeset(&changeset) {
            Ok(()) => Ok(changeset),
            Err(_) => Err(CannotConnectError { try_include_height: 0 }),
        }
    }
}

/// The header's own block id at `height`.
pub open spec fn header_block(header: bitcoin::block::Header, height: u32) -> BlockId {
    BlockId { height, hash: crate::host::hash_of_header(header) }
}

/// The block id of the header's previous block (meaningful for `height > 0`).
pub open spec fn header_prev_block(header: bitcoin::block::Header, height: u32) -> BlockId {
    BlockId { height: (height - 1) as u32, hash: crate::host::prev_of_header(header) }
}

/// Whether `connected_to` contradicts the chain the header implies: it
/// neither repeats the header's block nor its previous block, yet does not
/// lie strictly below both.
pub open spec fn header_inconsistent(
    header: bitcoin::block::Header,
    height: u32,
    connected_to: BlockId,
) -> bool {
    let dup = connected_to == header_block(header, height) || (height > 0 && connected_to
        == header_prev_block(header, height));
    !dup && connected_to.height >= (if height == 0 {
        0
    } else {
        (height - 1) as u32
    })
}

/// The blocks of the update chain an accepted header application builds, in
/// ascending height order.
pub open spec fn header_update_blocks(
    header: bitcoin::block::Header,
    height: u32,
    connected_to: BlockId,
) -> Seq<BlockId> {
    let this = header_block(header, height);
    if height == 0 {
        seq![this]
    } else {
        let prev = header_prev_block(header, height);
        if connected_to == this || connected_to == prev {
            seq![prev, this]
        } else {
            seq![connected_to, prev, this]
        }
    }
}

impl LocalChain {
    /// Update the chain with a `header` at `height`, claiming it connects to
    /// the existing block `connected_to`. The update inserts the header's
    /// block, its previous block (when `height > 0`), and `connected_to`
    /// when it is distinct from both.
    ///
    /// # Errors
    ///
    /// `InconsistentBlocks` when `connected_to` contradicts the header's
    /// implied chain; `CannotConnect` when the derived update cannot connect
    /// with the chain. The chain is unchanged on error.
    pub fn apply_header_connected_to(
        &mut self,
        header: &bitcoin::block::Header,
        height: u32,
        connected_to: BlockId,
    ) -> (r: Result<ChangeSet, ApplyHeaderError>)
        ensures
            !header_inconsistent(*header, height, connected_to) ==> match r {
                Ok(cs) => {
                    &&& merge_spec(
                        old(self).tip_blocks(),
                        header_update_blocks(*header, height, connected_to).reverse(),
                        false,
                    ) == Ok::<Map<u32, Option<bitcoin::BlockHash>>, u32>(cs.as_map())
                    &&& old(self).applies_ok(cs@)
                    &&& final(self).applied(*old(self), cs@)
                },
                Err(e) => {
                    &&& *final(self) == *old(self)
                    &&& e is CannotConnect
                    &&& match merge_spec(
                        old(self).tip_blocks(),
                        header_update_blocks(*header, height, connected_to).reverse(),
                        false,
                    ) {
                        Err(h) => e == ApplyHeaderError::CannotConnect(
                            CannotConnectError { try_include_height: h },
                        ),
                        Ok(m) => e == ApplyHeaderError::CannotConnect(
                            CannotConnectError { try_include_height: 0 },
                        ) && (exists|cs_entries: Seq<(u32, Option<bitcoin::BlockHash>)>|
                            entries_map(cs_entries) == m && !(#[trigger] old(self).applies_ok(
                                cs_entries,
                            ))),
                    }
                },
            },
            header_inconsistent(*header, height, connected_to) ==> (r
                == Err::<ChangeSet, ApplyHeaderError>(ApplyHeaderError::InconsistentBlocks)
                && *final(self) == *old(self)),
    {
        let this_hash = crate::host::header_block_hash(header);
        let this_block = BlockId { height, hash: this_hash };
        let mut ids: Vec<BlockId> = Vec::new();
        if height == 0 {
            if !(connected_to == this_block) {
                // `connected_to` cannot sit below the genesis header
                return Err(ApplyHeaderError::InconsistentBlocks);
            }
            ids.push(this_block);
            proof {
                assert(ids@ =~= header_update_blocks(*header, height, connected_to));
            }
        } else {
            let prev_block = BlockId {
                height: height - 1,
                hash: crate::host::header_prev_blockhash(header),
            };
            if connected_to == this_block || connected_to == prev_block {
                // a duplicate of one of the header's own blocks is redundant
                ids.push(prev_block);
                ids.push(this_block);
            } else {
                if connected_to.height >= height - 1 {
                    return Err(ApplyHeaderError::InconsistentBlocks);
                }
                ids.push(connected_to);
                ids.push(prev_block);
                ids.push(this_block);
            }
            proof {
                assert(ids@ =~= header_update_blocks(*header, height, connected_to));
            }
        }
        let tip = match CheckPoint::from_block_ids(&ids) {
            Ok(t) => t,
            Err(_) => {
                proof {
                    assert(heights_ascending(ids@));
                    assert(false);
                }
                return Err(ApplyHeaderError::InconsistentBlocks);
            },
        };
        let update = Update { tip, introduce_older_blocks: false };
        match self.apply_update(update) {
            Ok(cs) => Ok(cs),
            Err(e) => Err(ApplyHeaderError::CannotConnect(e)),
        }
    }

    /// Update the chain with a `header` at `height`, connecting it through
    /// its own previous block (or through itself, for the genesis header).
    ///
    /// # Errors
    ///
    /// Fails only when the derived update cannot connect with the chain; the
    /// chain is unchanged on error.
    pub fn apply_header(&mut self, header: &bitcoin::block::Header, height: u32) -> (r: Result<
        ChangeSet,
        CannotConnectError,
    >)
        ensures
            ({
                let conn = if height > 0 {
                    header_prev_block(*header, height)
                } else {
                    header_block(*header, height)
                };
                match r {
                    Ok(cs) => {
                        &&& merge_spec(
                            old(self).tip_blocks(),
                            header_update_blocks(*header, height, conn).reverse(),
                            false,
                        ) == Ok::<Map<u32, Option<bitcoin::BlockHash>>, u32>(cs.as_map())
                        &&& old(self).applies_ok(cs@)
                        &&& final(self).applied(*old(self), cs@)
                    },
                    Err(e) => {
                        &&& *final(self) == *old(self)
                        &&& match merge_spec(
                            old(self).tip_blocks(),
                            header_update_blocks(*header, height, conn).reverse(),
                            false,
                        ) {
                            Err(h) => e.try_include_height == h,
                            Ok(m) => e.try_include_height == 0 && (exists|cs_entries: Seq<
                                (u32, Option<bitcoin::BlockHash>),
                            >|
                                entries_map(cs_entries) == m && !(#[trigger] old(
                                    self,
                                ).applies_ok(cs_entries))),
                        }
                    },
                }
            }),
    {
        let connected_to = if height > 0 {
            BlockId { height: height - 1, hash: crate::host::header_prev_blockhash(header) }
        } else {
            BlockId { height, hash: crate::host::header_block_hash(header) }
        };
        match self.apply_header_connected_to(header, height, connected_to) {
            Ok(cs) => Ok(cs),
            Err(ApplyHeaderError::InconsistentBlocks) => {
                // `connected_to` is derived from the header itself, so it can
                // never be inconsistent with it
                proof {
                    assert(false);
                }
                Err(CannotConnectError { try_include_height: 0 })
            },
            Err(ApplyHeaderError::CannotConnect(e)) => Err(e),
        }
    }
}

/// Two sorted entry sequences describing the same map are identical: an
/// index is fully determined by the map the contracts speak of.
pub proof fn lemma_sorted_unique_repr(s1: Seq<(u32, bitcoin::BlockHash)>, s2: Seq<(u32, bitcoin::BlockHash)>)
    requires
        entries_sorted(s1),
        entries_sorted(s2),
        entries_map(s1) == entries_map(s2),
    ensures
        s1 == s2,
    decreases s1.len(),
{
    if s1.len() == 0 {
        if s2.len() > 0 {
            lemma_entries_value(s2, 0);
            assert(entries_map(s1).contains_key(s2[0].0));
            assert(false);
        }
        assert(s1 =~= s2);
    } else if s2.len() == 0 {
        lemma_entries_value(s1, 0);
        assert(entries_map(s2).contains_key(s1[0].0));
        assert(false);
    } else {
        lemma_first_key_min(s1);
        lemma_first_key_min(s2);
        lemma_entries_value(s1, 0);
        lemma_entries_value(s2, 0);
        assert(entries_map(s2).contains_key(s1[0].0));
        assert(entries_map(s1).contains_key(s2[0].0));
        assert(s1[0].0 == s2[0].0);
        assert(s1[0].1 == s2[0].1);
        lemma_sorted_remove(s1, s1.remove(0), 0, s1[0].0);
        lemma_sorted_remove(s2, s2.remove(0), 0, s2[0].0);
        lemma_sorted_unique_repr(s1.remove(0), s2.remove(0));
        assert forall|i: int| 0 <= i < s1.len() implies s1[i] == s2[i] by {
            if i > 0 {
                assert(s1.remove(0)[i - 1] == s1[i]);
                assert(s2.remove(0)[i - 1] == s2[i]);
            }
        }
        assert(s1 =~= s2);
    }
}

/// Two strictly descending block sequences with the same height-to-hash map
/// are the same sequence: a chain's tip list is fully determined by the map
/// the contracts speak of.
pub proof fn lemma_descending_blocks_unique(s1: Seq<BlockId>, s2: Seq<BlockId>)
    requires
        heights_descending(s1),
        heights_descending(s2),
        blocks_to_map(s1) == blocks_to_map(s2),
    ensures
        s1 == s2,
{
    lemma_descending_unique(s1);
    lemma_descending_unique(s2);
    lemma_entries_map_reverse(pairs_of(s1));
    lemma_entries_map_reverse(pairs_of(s2));
    let r1 = pairs_of(s1).reverse();
    let r2 = pairs_of(s2).reverse();
    assert forall|i: int, j: int| 0 <= i < j < r1.len() implies r1[i].0 < r1[j].0 by {
        assert(r1[i] == pairs_of(s1)[s1.len() - 1 - i]);
        assert(r1[j] == pairs_of(s1)[s1.len() - 1 - j]);
        assert(s1[s1.len() - 1 - j].height > s1[s1.len() - 1 - i].height);
    }
    assert forall|i: int, j: int| 0 <= i < j < r2.len() implies r2[i].0 < r2[j].0 by {
        assert(r2[i] == pairs_of(s2)[s2.len() - 1 - i]);
        assert(r2[j] == pairs_of(s2)[s2.len() - 1 - j]);
        assert(s2[s2.len() - 1 - j].height > s2[s2.len() - 1 - i].height);
    }
    lemma_sorted_unique_repr(r1, r2);
    assert forall|i: int| 0 <= i < s1.len() implies s1[i] == s2[i] by {
        assert(r1[s1.len() - 1 - i] == pairs_of(s1)[i]);
        assert(r2[s2.len() - 1 - i] == pairs_of(s2)[i]);
        assert(pairs_of(s1)[i] == pairs_of(s2)[i]);
        assert(s1[i].height == s2[i].height && s1[i].hash == s2[i].hash);
    }
    assert(s1 =~= s2);
}

/// Whether two chains agree on the genesis entry of their indexes.
pub open spec fn genesis_matches(a: LocalChain, b: LocalChain) -> bool {
    &&& a.index_map().contains_key(0) == b.index_map().contains_key(0)
    &&& (a.index_map().contains_key(0) ==> a.index_map()[0] == b.index_map()[0])
}

impl LocalChain {
    /// The equality of two chains: their indexes agree on the genesis entry
    /// and on the suffix at or above the higher of the two birthdays, with
    /// both sides restricted to that suffix. History below the higher
    /// birthday is treated as unobservable, so this relation is reflexive
    /// and symmetric but deliberately not transitive across chains with
    /// different birthdays.
    pub open spec fn chains_equal(self, other: Self) -> bool {
        let bd = if self.spec_birthday() >= other.spec_birthday() {
            self.spec_birthday()
        } else {
            other.spec_birthday()
        };
        genesis_matches(self, other) && map_from(self.index_map(), bd) == map_from(
            other.index_map(),
            bd,
        )
    }
}

/// The position at which the entries of `m` reach height `from`.
fn split_at_height(m: &BlockMap<bitcoin::BlockHash>, from: u32) -> (r: usize)
    ensures
        r <= m@.len(),
        forall|i: int| 0 <= i < r ==> (#[trigger] m@[i]).0 < from,
        forall|i: int| r <= i < m@.len() ==> (#[trigger] m@[i]).0 >= from,
{
    proof {
        use_type_invariant(m);
    }
    let n = m.len();
    let mut p: usize = 0;
    while p < n && m.key_at(p) < from
        invariant
            n == m@.len(),
            p <= n,
            entries_sorted(m@),
            forall|i: int| 0 <= i < p ==> (#[trigger] m@[i]).0 < from,
        decreases n - p,
    {
        p += 1;
    }
    proof {
        assert forall|i: int| (p as int) <= i < m@.len() implies (#[trigger] m@[i]).0 >= from by {
            if i > p {
                assert(m@[p as int].0 < m@[i].0);
            }
        }
    }
    p
}

/// The entries from position `cut` on describe exactly the map restricted
/// to heights at or above `from`.
proof fn lemma_suffix_is_map_from(s: Seq<(u32, bitcoin::BlockHash)>, from: u32, cut: int)
    requires
        entries_sorted(s),
        0 <= cut <= s.len(),
        forall|i: int| 0 <= i < cut ==> (#[trigger] s[i]).0 < from,
        forall|i: int| cut <= i < s.len() ==> (#[trigger] s[i]).0 >= from,
    ensures
        entries_sorted(s.subrange(cut, s.len() as int)),
        entries_map(s.subrange(cut, s.len() as int)) == map_from(entries_map(s), from),
{
    let tail = s.subrange(cut, s.len() as int);
    assert forall|i: int, j: int| 0 <= i < j < tail.len() implies tail[i].0 < tail[j].0 by {
        assert(s[cut + i].0 < s[cut + j].0);
    }
    assert forall|h: u32|
        entries_contain_key(tail, h) <==> (entries_map(s).contains_key(h) && h >= from) by {
        if entries_contain_key(tail, h) {
            let i = choose|i: int| 0 <= i < tail.len() && tail[i].0 == h;
            assert(s[cut + i].0 == h);
        }
        if entries_contain_key(s, h) && h >= from {
            let i = choose|i: int| 0 <= i < s.len() && s[i].0 == h;
            assert(i >= cut);
            assert(tail[i - cut].0 == h);
        }
    }
    assert forall|h: u32| entries_contain_key(tail, h) implies entries_value(tail, h)
        == entries_value(s, h) by {
        let i = choose|i: int| 0 <= i < tail.len() && tail[i].0 == h;
        lemma_entries_value(tail, i);
        assert(s[cut + i] == tail[i]);
        lemma_entries_value(s, cut + i);
    }
    assert(entries_map(tail) =~= map_from(entries_map(s), from));
}

/// Whether `a` and `b` hold the same entries at or above `from`.
fn tails_equal(
    a: &BlockMap<bitcoin::BlockHash>,
    b: &BlockMap<bitcoin::BlockHash>,
    from: u32,
) -> (r: bool)
    ensures
        r == (map_from(entries_map(a@), from) == map_from(entries_map(b@), from)),
{
    proof {
        use_type_invariant(a);
        use_type_invariant(b);
    }
    let pa = split_at_height(a, from);
    let pb = split_at_height(b, from);
    let ghost ta = a@.subrange(pa as int, a@.len() as int);
    let ghost tb = b@.subrange(pb as int, b@.len() as int);
    proof {
        lemma_suffix_is_map_from(a@, from, pa as int);
        lemma_suffix_is_map_from(b@, from, pb as int);
    }
    let an = a.len();
    let bn = b.len();
    if an - pa != bn - pb {
        proof {
            if map_from(entries_map(a@), from) == map_from(entries_map(b@), from) {
                lemma_sorted_unique_repr(ta, tb);
            }
        }
        return false;
    }
    let cnt = an - pa;
    let mut i: usize = 0;
    while i < cnt
        invariant
            an == a@.len(),
            bn == b@.len(),
            pa <= an,
            pb <= bn,
            cnt == an - pa,
            cnt == bn - pb,
            i <= cnt,
            ta == a@.subrange(pa as int, a@.len() as int),
            tb == b@.subrange(pb as int, b@.len() as int),
            entries_sorted(ta),
            entries_sorted(tb),
            entries_map(ta) == map_from(entries_map(a@), from),
            entries_map(tb) == map_from(entries_map(b@), from),
            forall|j: int| 0 <= j < i ==> #[trigger] a@[pa + j] == b@[pb + j],
        decreases cnt - i,
    {
        let (ka, va) = (a.key_at(pa + i), a.val_at(pa + i));
        let (kb, vb) = (b.key_at(pb + i), b.val_at(pb + i));
        if ka != kb || !(va == vb) {
            proof {
                if map_from(entries_map(a@), from) == map_from(entries_map(b@), from) {
                    lemma_sorted_unique_repr(ta, tb);
                    assert(ta[i as int] == tb[i as int]);
                    assert(a@[pa + i] == b@[pb + i]);
                }
            }
            return false;
        }
        i += 1;
    }
    proof {
        assert forall|j: int| 0 <= j < ta.len() implies ta[j] == tb[j] by {
            assert(a@[pa + j] == b@[pb + j]);
        }
        assert(ta =~= tb);
    }
    true
}

impl PartialEq for LocalChain {
    /// Chains compare per the overlaid lifetime: the indexes must agree on
    /// the genesis entry and on the suffix at or above the higher birthday.
    fn eq(&self, other: &Self) -> bool {
        proof {
            use_type_invariant(&*self);
            use_type_invariant(&*other);
        }
        let bd = if self.birthday >= other.birthday {
            self.birthday
        } else {
            other.birthday
        };
        let g_self = self.genesis_hash();
        let g_other = other.genesis_hash();
        proof {
            assert(genesis_matches(*self, *other) == (g_self == g_other));
        }
        g_self == g_other && tails_equal(&self.index, &other.index, bd)
    }
}

impl vstd::std_specs::cmp::PartialEqSpecImpl for LocalChain {
    open spec fn obeys_eq_spec() -> bool {
        true
    }

    open spec fn eq_spec(&self, other: &Self) -> bool {
        self.chains_equal(*other)
    }
}

impl Clone for LocalChain {
    /// A handle-sharing copy: the clone observes the same tip list, index
    /// and birthday.
    fn clone(&self) -> (r: Self)
        ensures
            r.tip_blocks() == self.tip_blocks(),
            r.index_entries() == self.index_entries(),
            r.spec_birthday() == self.spec_birthday(),
    {
        proof {
            use_type_invariant(&*self);
        }
        LocalChain { tip: self.tip.clone(), index: self.index.clone(), birthday: self.birthday }
    }
}

impl crate::ChainOracle for LocalChain {
    type Error = core::convert::Infallible;

    fn is_block_in_chain(&self, block: BlockId, chain_tip: BlockId) -> Result<
        Option<bool>,
        core::convert::Infallible,
    > {
        self.is_block_in_chain(block, chain_tip)
    }

    fn get_chain_tip(&self) -> Result<BlockId, core::convert::Infallible> {
        self.get_chain_tip()
    }
}

/// After any successful operation, the index holds exactly the blocks
/// reachable from the tip, at or above the tip list's root; on a chain
/// whose tip list reaches down to height 0, the index holds exactly the
/// reachable blocks. (Heights are unique on both sides, so the height-keyed
/// maps carry the full multiset of `(height, hash)` pairs.)
pub proof fn lemma_index_matches_tip(c: LocalChain)
    requires
        c.wf(),
    ensures
        map_from(c.index_map(), c.root_height()) == blocks_to_map(c.tip_blocks()),
        c.root_height() == 0 ==> c.index_map() == blocks_to_map(c.tip_blocks()),
{
    if c.root_height() == 0 {
        assert(map_from(c.index_map(), 0) =~= c.index_map());
    }
}

/// A valid chain always has a genesis entry in its index.
pub proof fn lemma_genesis_always_indexed(c: LocalChain)
    requires
        c.wf(),
    ensures
        c.index_map().contains_key(0),
{
}

/// A chain rebuilt from another chain's initial change set equals the
/// original, under the birthday-relative chain equality: `cs` is the
/// original's initial change set, and `c2` holds exactly its `Some`
/// entries, as a chain built from a change set does.
pub proof fn lemma_initial_changeset_rebuilds(
    c: LocalChain,
    cs: Seq<(u32, Option<bitcoin::BlockHash>)>,
    c2: LocalChain,
)
    requires
        entries_sorted(c.index_entries()),
        cs == c.index_entries().map_values(|e: (u32, bitcoin::BlockHash)| (e.0, Some(e.1))),
        c2.index_map() == somes_of(entries_map(cs)),
    ensures
        c2.chains_equal(c),
        c.chains_equal(c2),
{
    let s = c.index_entries();
    assert forall|a: int, b: int| 0 <= a < b < cs.len() implies cs[a].0 < cs[b].0 by {
        assert(s[a].0 < s[b].0);
    }
    assert forall|h: u32|
        c2.index_map().contains_key(h) <==> c.index_map().contains_key(h) by {
        if entries_contain_key(cs, h) {
            let i = choose|i: int| 0 <= i < cs.len() && cs[i].0 == h;
            assert(s[i].0 == h);
        }
        if entries_contain_key(s, h) {
            let i = choose|i: int| 0 <= i < s.len() && s[i].0 == h;
            assert(cs[i].0 == h);
            lemma_entries_value(cs, i);
        }
    }
    assert forall|h: u32| c2.index_map().contains_key(h) implies c2.index_map()[h]
        == c.index_map()[h] by {
        let i = choose|i: int| 0 <= i < cs.len() && cs[i].0 == h;
        lemma_entries_value(cs, i);
        assert(s[i].0 == h);
        lemma_entries_value(s, i);
    }
    assert(c2.index_map() =~= c.index_map());
}

/// Applying the change set returned by a successful update to a copy of the
/// pre-update chain yields a chain equal to the post-update chain.
pub proof fn lemma_changeset_replay_matches(
    pre1: LocalChain,
    post1: LocalChain,
    pre2: LocalChain,
    post2: LocalChain,
    cs: Seq<(u32, Option<bitcoin::BlockHash>)>,
)
    requires
        pre1.index_map() == pre2.index_map(),
        blocks_to_map(pre1.tip_blocks()) == blocks_to_map(pre2.tip_blocks()),
        pre1.spec_birthday() == pre2.spec_birthday(),
        post1.applied(pre1, cs),
        post2.applied(pre2, cs),
    ensures
        post1.chains_equal(post2),
{
    assert(post1.index_map() == post2.index_map());
}

/// Applying a change set a second time changes nothing: the replayed chain
/// holds the same index and the same reachable blocks.
pub proof fn lemma_apply_changeset_idempotent(
    pre: LocalChain,
    mid: LocalChain,
    post: LocalChain,
    cs: Seq<(u32, Option<bitcoin::BlockHash>)>,
)
    requires
        entries_sorted(cs),
        mid.applied(pre, cs),
        post.applied(mid, cs),
    ensures
        post.index_map() == mid.index_map(),
        blocks_to_map(post.tip_blocks()) == blocks_to_map(mid.tip_blocks()),
        post.chains_equal(mid),
{
    if cs.len() == 0 {
    } else {
        let start = cs[0].0;
        let cs_map = entries_map(cs);
        let ext1 = pre.spec_extension(cs);
        let ext2 = mid.spec_extension(cs);
        assert forall|k: u32| cs_map.contains_key(k) implies k >= start by {
            let i = choose|i: int| 0 <= i < cs.len() && cs[i].0 == k;
            if i > 0 {
                assert(cs[0].0 < cs[i].0);
            }
        }
        assert forall|k: u32| ext1.contains_key(k) implies k >= start by {}
        assert(map_from(blocks_to_map(mid.tip_blocks()), start) =~= ext1);
        assert(ext2 =~= ext1);
        assert(map_below(blocks_to_map(mid.tip_blocks()), start) =~= map_below(
            blocks_to_map(pre.tip_blocks()),
            start,
        ));
        assert(map_below(mid.index_map(), start) =~= map_below(
            map_below(pre.index_map(), start).union_prefer_right(ext1),
            start,
        ));
        assert(map_below(mid.index_map(), start) =~= map_below(pre.index_map(), start));
        assert(post.index_map() =~= mid.index_map());
        assert(blocks_to_map(post.tip_blocks()) =~= blocks_to_map(mid.tip_blocks()));
    }
}

/// On a failed merge, the suggested `try_include_height` is the height of a
/// block of the original chain (the lowest one the walk left unexplained),
/// and the update holds no block at that height at all: it could neither
/// match that original block nor invalidate it.
pub proof fn lemma_merge_err_is_original_height(o: Seq<BlockId>, u: Seq<BlockId>, older: bool, h: u32)
    requires
        heights_descending(o),
        heights_descending(u),
        merge_spec(o, u, older) == Err::<Map<u32, Option<bitcoin::BlockHash>>, u32>(h),
    ensures
        exists|i: int| 0 <= i < o.len() && o[i].height == h,
        forall|j: int| 0 <= j < u.len() ==> (#[trigger] u[j]).height != h,
{
    assert(u == u.skip(0));
    lemma_merge_err_helper(
        o,
        u,
        None,
        None,
        false,
        false,
        Seq::empty(),
        Map::empty(),
        older,
        o,
        u,
        0,
        h,
    );
}

/// The failure height of any merge state whose original cursor and previous
/// original block come from `o_full` lies in `o_full`; when the state can
/// still fail (no agreement, last original block not invalidated), the
/// update chain `u_full` holds no block at the previous original block's
/// height, so the failure height is absent from the update.
proof fn lemma_merge_err_helper(
    o: Seq<BlockId>,
    u: Seq<BlockId>,
    po: Option<BlockId>,
    pu: Option<BlockId>,
    poa: bool,
    inval: bool,
    pot: Seq<u32>,
    cs: Map<u32, Option<bitcoin::BlockHash>>,
    older: bool,
    o_full: Seq<BlockId>,
    u_full: Seq<BlockId>,
    ui: int,
    h: u32,
)
    requires
        merge_step(o, u, po, pu, poa, inval, pot, cs, older) == Err::<
            Map<u32, Option<bitcoin::BlockHash>>,
            u32,
        >(h),
        heights_descending(o),
        heights_descending(u_full),
        0 <= ui <= u_full.len(),
        u == u_full.skip(ui),
        forall|i: int| 0 <= i < o.len() ==> o_full.contains(#[trigger] o[i]),
        po is Some ==> o_full.contains(po->0),
        forall|j: int|
            0 <= j < ui && o.len() > 0 ==> (#[trigger] u_full[j]).height > o[0].height,
        (!inval && !poa && po is Some) ==> (forall|j: int|
            0 <= j < u_full.len() ==> (#[trigger] u_full[j]).height != po->0.height),
    ensures
        exists|i: int| 0 <= i < o_full.len() && o_full[i].height == h,
        forall|j: int| 0 <= j < u_full.len() ==> (#[trigger] u_full[j]).height != h,
    decreases o.len() + u.len(),
{
    assert forall|j: int| 0 <= j < u.len() implies #[trigger] u[j] == u_full[ui + j] by {}
    if o.len() == 0 && u.len() == 0 {
        assert(o_full.contains(po->0));
    } else if u.len() > 0 && (o.len() == 0 || u[0].height > o[0].height) {
        assert(u.skip(1) =~= u_full.skip(ui + 1));
        lemma_merge_err_helper(
            o,
            u.skip(1),
            po,
            Some(u[0]),
            poa,
            inval,
            pot,
            cs.insert(u[0].height, Some(u[0].hash)),
            older,
            o_full,
            u_full,
            ui + 1,
            h,
        );
    } else if o.len() > 0 && (u.len() == 0 || o[0].height > u[0].height) {
        // the update holds no block at this original-only height: every
        // consumed update block lies above it, every remaining one below
        assert forall|j: int| 0 <= j < u_full.len() implies (#[trigger] u_full[j]).height
            != o[0].height by {
            if j >= ui {
                assert(u_full[j] == u[j - ui]);
                if j - ui > 0 {
                    assert(u[0].height > u[j - ui].height);
                }
            }
        }
        if u.len() == 0 {
            assert(o_full.contains(o[0]));
        } else {
            assert forall|i: int| 0 <= i < o.skip(1).len() implies o_full.contains(
                #[trigger] o.skip(1)[i],
            ) by {
                assert(o.skip(1)[i] == o[i + 1]);
            }
            assert forall|i: int, j: int| 0 <= i < j < o.skip(1).len() implies o.skip(
                1,
            )[i].height > o.skip(1)[j].height by {
                assert(o.skip(1)[i] == o[i + 1]);
                assert(o.skip(1)[j] == o[j + 1]);
            }
            assert(o_full.contains(o[0]));
            assert forall|j: int|
                0 <= j < ui && o.skip(1).len() > 0 implies (#[trigger] u_full[j]).height > o.skip(
                1,
            )[0].height by {
                assert(o.skip(1)[0] == o[1]);
                assert(o[0].height > o[1].height);
            }
            lemma_merge_err_helper(
                o.skip(1),
                u,
                Some(o[0]),
                pu,
                poa,
                false,
                pot.push(o[0].height),
                cs,
                older,
                o_full,
                u_full,
                ui,
                h,
            );
        }
    } else {
        assert forall|i: int| 0 <= i < o.skip(1).len() implies o_full.contains(
            #[trigger] o.skip(1)[i],
        ) by {
            assert(o.skip(1)[i] == o[i + 1]);
        }
        assert forall|i: int, j: int| 0 <= i < j < o.skip(1).len() implies o.skip(1)[i].height
            > o.skip(1)[j].height by {
            assert(o.skip(1)[i] == o[i + 1]);
            assert(o.skip(1)[j] == o[j + 1]);
        }
        assert(o_full.contains(o[0]));
        assert(u.skip(1) =~= u_full.skip(ui + 1));
        assert forall|j: int|
            0 <= j < ui + 1 && o.skip(1).len() > 0 implies (#[trigger] u_full[j]).height > o.skip(
            1,
        )[0].height by {
            assert(o.skip(1)[0] == o[1]);
            assert(o[0].height > o[1].height);
            if j == ui {
                assert(u_full[ui] == u[0]);
            }
        }
        if o[0].hash == u[0].hash {
            if !inval && !poa && po is Some && pu is Some {
                assert(o_full.contains(po->0));
            } else if !older {
            } else {
                lemma_merge_err_helper(
                    o.skip(1),
                    u.skip(1),
                    Some(o[0]),
                    Some(u[0]),
                    true,
                    false,
                    pot,
                    cs,
                    older,
                    o_full,
                    u_full,
                    ui + 1,
                    h,
                );
            }
        } else {
            lemma_merge_err_helper(
                o.skip(1),
                u.skip(1),
                Some(o[0]),
                Some(u[0]),
                poa,
                true,
                Seq::empty(),
                cs.insert(u[0].height, Some(u[0].hash)).union_prefer_right(nones_of(pot)),
                older,
                o_full,
                u_full,
                ui + 1,
                h,
            );
        }
    }
}

/// With `introduce_older_blocks` false, a successful merge maps no height
/// at or below a block the two chains share: every change-set key lies
/// strictly above the discovered point of agreement, because the merge
/// terminates there without exploring deeper.
pub proof fn lemma_merge_no_key_below_agreement(
    o: Seq<BlockId>,
    u: Seq<BlockId>,
    b: BlockId,
    m: Map<u32, Option<bitcoin::BlockHash>>,
)
    requires
        heights_descending(o),
        heights_descending(u),
        o.contains(b),
        u.contains(b),
        merge_spec(o, u, false) == Ok::<Map<u32, Option<bitcoin::BlockHash>>, u32>(m),
    ensures
        forall|k: u32| m.contains_key(k) ==> k > b.height,
{
    lemma_merge_p8_helper(o, u, None, None, false, false, Seq::empty(), Map::empty(), b, m);
}

/// The agreement bound, carried through every reachable merge state.
proof fn lemma_merge_p8_helper(
    o: Seq<BlockId>,
    u: Seq<BlockId>,
    po: Option<BlockId>,
    pu: Option<BlockId>,
    poa: bool,
    inval: bool,
    pot: Seq<u32>,
    cs: Map<u32, Option<bitcoin::BlockHash>>,
    b: BlockId,
    m: Map<u32, Option<bitcoin::BlockHash>>,
)
    requires
        heights_descending(o),
        heights_descending(u),
        o.contains(b),
        u.contains(b),
        forall|k: u32| cs.contains_key(k) ==> k > b.height,
        forall|i: int| 0 <= i < pot.len() ==> pot[i] > b.height,
        merge_step(o, u, po, pu, poa, inval, pot, cs, false) == Ok::<
            Map<u32, Option<bitcoin::BlockHash>>,
            u32,
        >(m),
    ensures
        forall|k: u32| m.contains_key(k) ==> k > b.height,
    decreases o.len() + u.len(),
{
    let oi = choose|i: int| 0 <= i < o.len() && o[i] == b;
    let ui = choose|i: int| 0 <= i < u.len() && u[i] == b;
    assert(o[0].height >= b.height) by {
        if oi > 0 {
            assert(o[0].height > o[oi].height);
        }
    }
    assert(u[0].height >= b.height) by {
        if ui > 0 {
            assert(u[0].height > u[ui].height);
        }
    }
    if u[0].height > o[0].height {
        // the update head lies above `b`, so `b` sits in the update's tail
        assert(u[0].height > b.height);
        assert(ui > 0);
        assert(u.skip(1)[ui - 1] == b);
        assert(u.skip(1).contains(b));
        assert forall|i: int, j: int| 0 <= i < j < u.skip(1).len() implies u.skip(1)[i].height
            > u.skip(1)[j].height by {
            assert(u.skip(1)[i] == u[i + 1]);
            assert(u.skip(1)[j] == u[j + 1]);
        }
        lemma_merge_p8_helper(
            o,
            u.skip(1),
            po,
            Some(u[0]),
            poa,
            inval,
            pot,
            cs.insert(u[0].height, Some(u[0].hash)),
            b,
            m,
        );
    } else if o[0].height > u[0].height {
        assert(o[0].height > b.height);
        assert(oi > 0);
        assert(o.skip(1)[oi - 1] == b);
        assert(o.skip(1).contains(b));
        assert forall|i: int, j: int| 0 <= i < j < o.skip(1).len() implies o.skip(1)[i].height
            > o.skip(1)[j].height by {
            assert(o.skip(1)[i] == o[i + 1]);
            assert(o.skip(1)[j] == o[j + 1]);
        }
        lemma_merge_p8_helper(
            o.skip(1),
            u,
            Some(o[0]),
            pu,
            poa,
            false,
            pot.push(o[0].height),
            cs,
            b,
            m,
        );
    } else {
        // equal heights; a shared block makes differing hashes at its own
        // height impossible
        if o[0].hash == u[0].hash {
            assert(m == cs);
        } else {
            assert(o[0].height > b.height) by {
                if o[0].height == b.height {
                    assert(oi == 0) by {
                        if oi > 0 {
                            assert(o[0].height > o[oi].height);
                        }
                    }
                    assert(ui == 0) by {
                        if ui > 0 {
                            assert(u[0].height > u[ui].height);
                        }
                    }
                    assert(o[0].hash == u[0].hash);
                }
            }
            assert(oi > 0 && ui > 0);
            assert(o.skip(1)[oi - 1] == b);
            assert(u.skip(1)[ui - 1] == b);
            assert(o.skip(1).contains(b));
            assert(u.skip(1).contains(b));
            assert forall|i: int, j: int| 0 <= i < j < o.skip(1).len() implies o.skip(
                1,
            )[i].height > o.skip(1)[j].height by {
                assert(o.skip(1)[i] == o[i + 1]);
                assert(o.skip(1)[j] == o[j + 1]);
            }
            assert forall|i: int, j: int| 0 <= i < j < u.skip(1).len() implies u.skip(
                1,
            )[i].height > u.skip(1)[j].height by {
                assert(u.skip(1)[i] == u[i + 1]);
                assert(u.skip(1)[j] == u[j + 1]);
            }
            let cs2 = cs.insert(u[0].height, Some(u[0].hash)).union_prefer_right(nones_of(pot));
            assert forall|k: u32| cs2.contains_key(k) implies k > b.height by {
                if nones_of(pot).contains_key(k) {
                    let i = choose|i: int| 0 <= i < pot.len() && pot[i] == k;
                }
            }
            lemma_merge_p8_helper(
                o.skip(1),
                u.skip(1),
                Some(o[0]),
                Some(u[0]),
                poa,
                true,
                Seq::empty(),
                cs2,
                b,
                m,
            );
        }
    }
}

impl Clone for CheckPoint {
    /// Relies on `Arc::clone`: the new handle shares the same node.
    #[verifier::external_body]
    fn clone(&self) -> (r: Self)
        ensures
            r == *self,
    {
        CheckPoint(Arc::clone(&self.0))
    }
}

/// Relies on `Arc::clone`: the returned handle is the same shared node.
#[verifier::external_body]
fn clone_arc(a: &Arc<CPInner>) -> (r: Arc<CPInner>)
    ensures
        r == *a,
{
    Arc::clone(a)
}

/// Relies on `Arc::ptr_eq`: if two handles point at the same allocation,
/// they hold the same node value.
#[verifier::external_body]
fn same_node(a: &CheckPoint, b: &CheckPoint) -> (r: bool)
    ensures
        r ==> a@ == b@,
{
    Arc::ptr_eq(&a.0, &b.0)
}

} // verus!
