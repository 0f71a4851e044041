//! Chain construction, updates, reorgs and change-set behaviour.

use bdk_chain::local_chain::{AlterCheckPointError, ChangeSet, CheckPoint, LocalChain};
use bdk_chain::ChainOracle;
use bdk_chain::BlockId;
use bitcoin::BlockHash;

fn h(n: u8) -> BlockHash {
    <BlockHash as bitcoin::hashes::Hash>::from_byte_array([n; 32])
}

fn b(height: u32, n: u8) -> BlockId {
    BlockId { height, hash: h(n) }
}

fn tip_of(blocks: &[BlockId]) -> CheckPoint {
    CheckPoint::from_block_ids(&blocks.to_vec()).expect("blocks are ascending")
}

fn chain_of(blocks: &[BlockId]) -> LocalChain {
    LocalChain::from_tip(tip_of(blocks)).expect("chain reaches genesis")
}

fn changeset(entries: &[(u32, Option<BlockHash>)]) -> ChangeSet {
    let mut cs = ChangeSet::new();
    for (height, hash) in entries {
        cs.insert(*height, *hash);
    }
    cs
}

#[test]
fn extend_on_tip() {
    // orig [0:A] -> [1:B], update [1:B] -> [2:C]: agreement at height 1
    let mut chain = chain_of(&[b(0, 0xA0), b(1, 0xB0)]);
    let update = tip_of(&[b(1, 0xB0), b(2, 0xC0)]).into_update(false);
    let cs = chain.apply_update(update).expect("update connects");
    assert_eq!(cs, changeset(&[(2, Some(h(0xC0)))]));
    assert_eq!(chain.tip().block_id(), b(2, 0xC0));
}

#[test]
fn reorg_depth_one() {
    // orig [0:A]->[1:B]->[2:C], update [1:B]->[2:D]
    let mut chain = chain_of(&[b(0, 0xA0), b(1, 0xB0), b(2, 0xC0)]);
    let update = tip_of(&[b(1, 0xB0), b(2, 0xD0)]).into_update(false);
    let cs = chain.apply_update(update).expect("update connects");
    assert_eq!(cs, changeset(&[(2, Some(h(0xD0)))]));
    assert_eq!(chain.tip().block_id(), b(2, 0xD0));
}

#[test]
fn reorg_depth_two_with_longer_update() {
    // orig [0:A]->[1:B]->[2:C]->[3:E], update [1:B]->[2:D]->[3:F]->[4:G]
    let mut chain = chain_of(&[b(0, 0xA0), b(1, 0xB0), b(2, 0xC0), b(3, 0xE0)]);
    let update = tip_of(&[b(1, 0xB0), b(2, 0xD0), b(3, 0xF0), b(4, 0x60)]).into_update(false);
    let cs = chain.apply_update(update).expect("update connects");
    assert_eq!(
        cs,
        changeset(&[(2, Some(h(0xD0))), (3, Some(h(0xF0))), (4, Some(h(0x60)))]),
    );
    assert_eq!(chain.tip().block_id(), b(4, 0x60));
}

#[test]
fn ambiguous_connection_fails() {
    // orig [0:A]->[5:B], update [3:C]->[4:D]: nothing invalidates (5,B)
    let mut chain = chain_of(&[b(0, 0xA0), b(5, 0xB0)]);
    let update = tip_of(&[b(3, 0xC0), b(4, 0xD0)]).into_update(false);
    let err = chain.apply_update(update).expect_err("connection is ambiguous");
    // the hint names the last original block the walk left unmatched: the
    // merge walks down past (5,B) and the update's blocks to (0,A) before
    // giving up
    assert_eq!(err.try_include_height, 0);
    assert_eq!(chain.tip().block_id(), b(5, 0xB0));
}

#[test]
fn missing_ancestor_with_introduce_older_blocks() {
    // orig [0:A]->[5:B], update [0:A]->[3:C]->[5:B]
    let mut chain = chain_of(&[b(0, 0xA0), b(5, 0xB0)]);
    let update = tip_of(&[b(0, 0xA0), b(3, 0xC0), b(5, 0xB0)]).into_update(true);
    let cs = chain.apply_update(update).expect("update connects");
    assert_eq!(cs, changeset(&[(3, Some(h(0xC0)))]));

    // without the flag the same update adds nothing
    let mut chain = chain_of(&[b(0, 0xA0), b(5, 0xB0)]);
    let update = tip_of(&[b(0, 0xA0), b(3, 0xC0), b(5, 0xB0)]).into_update(false);
    let cs = chain.apply_update(update).expect("update connects");
    assert_eq!(cs, ChangeSet::new());
}

#[test]
fn disconnect_from_removes_suffix() {
    // chain {0:A, 3:C, 5:E}; disconnecting (3,C) leaves {0:A}
    let mut chain = chain_of(&[b(0, 0xA0), b(3, 0xC0), b(5, 0xE0)]);
    let cs = chain.disconnect_from(b(3, 0xC0)).expect("not the genesis");
    assert_eq!(cs, changeset(&[(3, None), (5, None)]));
    assert_eq!(chain.blocks().len(), 1);
    assert_eq!(chain.blocks().get(0), Some(h(0xA0)));
    assert_eq!(chain.tip().block_id(), b(0, 0xA0));
}

#[test]
fn disconnect_from_absent_block_is_a_no_op() {
    let mut chain = chain_of(&[b(0, 0xA0), b(3, 0xC0)]);
    let cs = chain.disconnect_from(b(3, 0xD0)).expect("no-op");
    assert_eq!(cs, ChangeSet::new());
    assert_eq!(chain.tip().block_id(), b(3, 0xC0));
}

#[test]
fn disconnect_from_genesis_fails() {
    let mut chain = chain_of(&[b(0, 0xA0), b(3, 0xC0)]);
    chain
        .disconnect_from(b(0, 0xA0))
        .expect_err("cannot disconnect the genesis block");
    assert_eq!(chain.tip().block_id(), b(3, 0xC0));
}

#[test]
fn insert_block_conflict() {
    let mut chain = chain_of(&[b(0, 0xA0), b(3, 0xC0)]);
    let err = chain.insert_block(b(3, 0xD0)).expect_err("conflicting hash");
    assert_eq!(
        err,
        AlterCheckPointError {
            height: 3,
            original_hash: h(0xC0),
            update_hash: Some(h(0xD0)),
        },
    );
}

#[test]
fn insert_block_adds_and_is_idempotent() {
    let mut chain = chain_of(&[b(0, 0xA0), b(3, 0xC0)]);
    let cs = chain.insert_block(b(2, 0xB0)).expect("free height");
    assert_eq!(cs, changeset(&[(2, Some(h(0xB0)))]));
    assert_eq!(chain.blocks().get(2), Some(h(0xB0)));
    // the block now exists with the same hash: an empty change set
    let cs = chain.insert_block(b(2, 0xB0)).expect("same hash");
    assert_eq!(cs, ChangeSet::new());
}

#[test]
fn push_with_non_greater_height_fails() {
    let cp = CheckPoint::new(b(5, 0xA0));
    let err = cp.push(b(5, 0xB0)).expect_err("equal height is refused");
    // the original handle comes back unchanged
    assert_eq!(err.block_id(), b(5, 0xA0));
    let err = err.push(b(4, 0xB0)).expect_err("lower height is refused");
    assert_eq!(err.block_id(), b(5, 0xA0));
    let ok = err.push(b(6, 0xB0)).expect("greater height extends");
    assert_eq!(ok.block_id(), b(6, 0xB0));
}

#[test]
fn extend_returns_original_on_failure() {
    let cp = CheckPoint::new(b(2, 0xA0));
    let err = cp
        .extend(&vec![b(3, 0xB0), b(3, 0xC0)])
        .expect_err("heights must strictly ascend");
    assert_eq!(err.block_id(), b(2, 0xA0));
    assert!(err.prev().is_none());
}

#[test]
fn from_block_ids_rejects_bad_input() {
    assert!(matches!(CheckPoint::from_block_ids(&Vec::<BlockId>::new()), Err(None)));
    let err = CheckPoint::from_block_ids(&vec![b(0, 0xA0), b(2, 0xB0), b(1, 0xC0)])
        .expect_err("heights must strictly ascend");
    let partial = err.expect("a prefix was built");
    assert_eq!(partial.block_id(), b(2, 0xB0));
}

#[test]
fn iterate_checkpoints_descending() {
    let chain = chain_of(&[b(0, 0xA0), b(2, 0xB0), b(5, 0xC0)]);
    let mut it = chain.iter_checkpoints();
    let mut heights = Vec::new();
    while let Some(cp) = it.next() {
        heights.push(cp.height());
    }
    assert_eq!(heights, vec![5, 2, 0]);
}

#[test]
fn from_tip_requires_genesis() {
    let tip = tip_of(&[b(1, 0xA0), b(2, 0xB0)]);
    assert!(LocalChain::from_tip(tip).is_err());
}

#[test]
fn from_blocks_requires_genesis() {
    let mut blocks = bdk_chain::block_map::BlockMap::new();
    blocks.insert(1, h(0xA0));
    assert!(LocalChain::from_blocks(blocks).is_err());
}

#[test]
fn genesis_hash_and_blocks() {
    let (chain, cs) = LocalChain::from_genesis_hash(h(0xA0));
    assert_eq!(chain.genesis_hash(), h(0xA0));
    assert_eq!(cs, changeset(&[(0, Some(h(0xA0)))]));
    assert_eq!(chain.blocks().len(), 1);
}

#[test]
fn from_block_id_keeps_genesis_in_index() {
    let (chain, cs) = LocalChain::from_block_id(h(0xA0), b(7, 0xB0));
    assert_eq!(chain.genesis_hash(), h(0xA0));
    assert_eq!(chain.tip().block_id(), b(7, 0xB0));
    assert!(chain.tip().prev().is_none());
    assert_eq!(cs, changeset(&[(0, Some(h(0xA0))), (7, Some(h(0xB0)))]));
}

#[test]
fn initial_changeset_round_trip() {
    let chain = chain_of(&[b(0, 0xA0), b(2, 0xB0), b(5, 0xC0)]);
    let cs = chain.initial_changeset();
    let rebuilt = LocalChain::from_changeset(cs).expect("has a genesis entry");
    assert!(rebuilt == chain);
    assert_eq!(rebuilt.tip().block_id(), chain.tip().block_id());
}

#[test]
fn from_changeset_requires_genesis() {
    assert!(LocalChain::from_changeset(ChangeSet::new()).is_err());
    assert!(LocalChain::from_changeset(changeset(&[(1, Some(h(0xA0)))])).is_err());
    assert!(LocalChain::from_changeset(changeset(&[(0, None), (1, Some(h(0xA0)))])).is_err());
}

#[test]
fn update_changeset_replays_onto_pre_state() {
    // the change set an update returns turns a copy of the pre-state into
    // the post-state
    let mut chain = chain_of(&[b(0, 0xA0), b(1, 0xB0), b(2, 0xC0)]);
    let copy = chain.clone();
    let update = tip_of(&[b(1, 0xB0), b(2, 0xD0), b(3, 0xE0)]).into_update(false);
    let cs = chain.apply_update(update).expect("update connects");
    let mut replay = copy;
    replay.apply_changeset(&cs).expect("replay applies");
    assert!(replay == chain);
}

#[test]
fn apply_changeset_is_idempotent() {
    let mut chain = chain_of(&[b(0, 0xA0), b(1, 0xB0), b(2, 0xC0)]);
    let cs = changeset(&[(2, None), (3, Some(h(0xD0)))]);
    chain.apply_changeset(&cs).expect("applies");
    let once = chain.clone();
    chain.apply_changeset(&cs).expect("applies again");
    assert!(chain == once);
    assert_eq!(chain.tip().block_id(), b(3, 0xD0));
    assert_eq!(chain.blocks().get(2), None);
}

#[test]
fn apply_changeset_missing_genesis_fails() {
    let mut chain = chain_of(&[b(0, 0xA0), b(1, 0xB0)]);
    // removing everything from the genesis up would orphan the chain
    let cs = changeset(&[(0, None), (1, None)]);
    chain.apply_changeset(&cs).expect_err("would lose the genesis");
    assert_eq!(chain.tip().block_id(), b(1, 0xB0));
}

#[test]
fn is_block_in_chain_answers() {
    let chain = chain_of(&[b(0, 0xA0), b(2, 0xB0), b(5, 0xC0)]);
    let tip = b(5, 0xC0);
    assert_eq!(chain.is_block_in_chain(b(2, 0xB0), tip), Ok(Some(true)));
    assert_eq!(chain.is_block_in_chain(b(2, 0xD0), tip), Ok(Some(false)));
    assert_eq!(chain.is_block_in_chain(b(3, 0xD0), tip), Ok(None));
    assert_eq!(chain.is_block_in_chain(b(6, 0xD0), tip), Ok(None));
    assert_eq!(chain.get_chain_tip(), Ok(b(5, 0xC0)));
}

#[test]
fn chain_equality_respects_birthdays() {
    // chains that agree on the genesis entry and at or above the later
    // birthday compare equal, whatever happened before it; the relation is
    // deliberately not transitive across differing birthdays
    let (sparse, _) = LocalChain::from_block_id(h(0xA0), b(5, 0xB0));
    let full = chain_of(&[b(0, 0xA0), b(3, 0xC0), b(5, 0xB0)]);
    let trimmed = chain_of(&[b(0, 0xA0), b(5, 0xB0)]);
    assert!(sparse == full);
    assert!(full == sparse);
    assert!(sparse == trimmed);
    // both birthdays are zero here, so the full indexes are compared
    assert!(full != trimmed);
    assert!(trimmed == chain_of(&[b(0, 0xA0), b(5, 0xB0)]));
}

#[test]
fn update_replaces_single_block_chain() {
    // a chain of a single block can be replaced freely by an update at the
    // same height with a different hash
    let mut chain = chain_of(&[b(0, 0xA0)]);
    let update = tip_of(&[b(0, 0xB0)]).into_update(false);
    let cs = chain.apply_update(update).expect("single block replaced");
    assert_eq!(cs, changeset(&[(0, Some(h(0xB0)))]));
    assert_eq!(chain.genesis_hash(), h(0xB0));
}

#[test]
fn rebuilt_sparse_chain_equals_original() {
    // the round trip holds for a chain built around a single block too: the
    // rebuilt chain starts at birthday zero, but both indexes agree on the
    // genesis entry and at or above the sparse chain's birthday
    let (sparse, _) = LocalChain::from_block_id(h(0xA0), b(5, 0xB0));
    let cs = sparse.initial_changeset();
    let rebuilt = LocalChain::from_changeset(cs).expect("genesis present");
    assert_eq!(rebuilt.blocks(), sparse.blocks());
    assert!(sparse == rebuilt);
    assert!(rebuilt == sparse);
    assert_eq!(rebuilt.tip().block_id(), b(5, 0xB0));
    assert_eq!(rebuilt.genesis_hash(), h(0xA0));
}

#[test]
fn changeset_map_operations() {
    let mut cs = ChangeSet::new();
    assert!(cs.is_empty());
    cs.insert(5, Some(h(1)));
    cs.insert(2, None);
    cs.insert(5, Some(h(2)));
    assert_eq!(cs.len(), 2);
    assert_eq!(cs.first_key(), Some(2));
    assert_eq!(cs.key_at(0), 2);
    assert_eq!(cs.val_at(0), None);
    assert_eq!(cs.get(5), Some(Some(h(2))));
    assert_eq!(cs.get(3), None);
    cs.remove(2);
    assert_eq!(cs.get(2), None);
    assert_eq!(cs.len(), 1);
}

#[test]
fn update_built_on_shared_tip_nodes() {
    // an update built by pushing onto the chain's own tip handle shares the
    // underlying nodes; merging it introduces exactly the new block, even
    // with introduce_older_blocks set
    let mut chain = chain_of(&[b(0, 0xA0), b(1, 0xB0), b(2, 0xC0)]);
    let update_tip = chain.tip().push(b(3, 0xD0)).expect("height increases");
    let cs = chain.apply_update(update_tip.into_update(true)).expect("update connects");
    assert_eq!(cs, changeset(&[(3, Some(h(0xD0)))]));
    assert_eq!(chain.tip().block_id(), b(3, 0xD0));
    assert_eq!(chain.blocks().len(), 4);
}

#[test]
fn following_connect_hints_eventually_connects() {
    // each failure hints at an original block to include; following the
    // hints converges on an update that connects
    let mut chain = chain_of(&[b(0, 0xA0), b(5, 0xB0)]);
    let e1 = chain
        .apply_update(tip_of(&[b(3, 0xC0), b(4, 0xD0)]).into_update(false))
        .expect_err("does not connect");
    assert_eq!(e1.try_include_height, 0);
    let e2 = chain
        .apply_update(tip_of(&[b(0, 0xA0), b(3, 0xC0), b(4, 0xD0)]).into_update(false))
        .expect_err("still leaves (5,B) unexplained");
    assert_eq!(e2.try_include_height, 5);
    // with both hinted blocks included the update connects; agreement is
    // found at the tip, so nothing below it changes without the
    // introduce-older flag
    let cs = chain
        .apply_update(
            tip_of(&[b(0, 0xA0), b(3, 0xC0), b(4, 0xD0), b(5, 0xB0)]).into_update(false),
        )
        .expect("connects at the shared tip");
    assert_eq!(cs, ChangeSet::new());
    let cs = chain
        .apply_update(
            tip_of(&[b(0, 0xA0), b(3, 0xC0), b(4, 0xD0), b(5, 0xB0)]).into_update(true),
        )
        .expect("connects at the shared tip");
    assert_eq!(cs, changeset(&[(3, Some(h(0xC0))), (4, Some(h(0xD0)))]));
}
