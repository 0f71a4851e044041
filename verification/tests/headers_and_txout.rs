//! Applying real block headers, and output maturity / spendability.

use bdk_chain::local_chain::{ApplyHeaderError, CheckPoint, LocalChain};
use bdk_chain::{
    Anchor, BlockId, ChainPosition, ConfirmationHeightAnchor, ConfirmationTime,
    ConfirmationTimeHeightAnchor, FullTxOut,
};
use bitcoin::block::{Header, Version};
use bitcoin::{Amount, BlockHash, CompactTarget, OutPoint, ScriptBuf, TxMerkleNode, TxOut, Txid};

fn h(n: u8) -> BlockHash {
    <BlockHash as bitcoin::hashes::Hash>::from_byte_array([n; 32])
}

fn b(height: u32, n: u8) -> BlockId {
    BlockId { height, hash: h(n) }
}

fn header_on(prev: BlockHash) -> Header {
    Header {
        version: Version::ONE,
        prev_blockhash: prev,
        merkle_root: <TxMerkleNode as bitcoin::hashes::Hash>::all_zeros(),
        time: 1_234,
        bits: CompactTarget::from_consensus(0x1d00ffff),
        nonce: 7,
    }
}

#[test]
fn from_header_links_previous_block() {
    let header = header_on(h(0x90));
    let cp = CheckPoint::from_header(&header, 4);
    assert_eq!(cp.height(), 4);
    assert_eq!(cp.hash(), header.block_hash());
    let prev = cp.prev().expect("non-genesis header links its parent");
    assert_eq!(prev.block_id(), BlockId { height: 3, hash: h(0x90) });
    assert!(prev.prev().is_none());
}

#[test]
fn from_header_at_genesis_has_no_previous() {
    let header = header_on(h(0x90));
    let cp = CheckPoint::from_header(&header, 0);
    assert_eq!(cp.height(), 0);
    assert_eq!(cp.hash(), header.block_hash());
    assert!(cp.prev().is_none());
}

#[test]
fn apply_header_extends_chain() {
    let (mut chain, _) = LocalChain::from_genesis_hash(h(0xA0));
    let header = header_on(h(0xA0));
    let cs = chain.apply_header(&header, 1).expect("header connects");
    assert_eq!(cs.get(1), Some(Some(header.block_hash())));
    assert_eq!(
        chain.tip().block_id(),
        BlockId { height: 1, hash: header.block_hash() },
    );
}

#[test]
fn apply_header_connected_to_rejects_inconsistent_block() {
    let mut chain = LocalChain::from_tip(
        CheckPoint::from_block_ids(&vec![b(0, 0xA0), b(1, 0xB0)]).expect("ascending"),
    )
    .expect("reaches genesis");
    let header = header_on(h(0xB0));
    // a connection point at the header's own height with another hash
    let err = chain
        .apply_header_connected_to(&header, 2, b(2, 0xC0))
        .expect_err("conflicting connection point");
    assert_eq!(err, ApplyHeaderError::InconsistentBlocks);
    assert_eq!(chain.tip().block_id(), b(1, 0xB0));
}

#[test]
fn apply_header_connected_to_accepts_lower_connection() {
    let mut chain = LocalChain::from_tip(
        CheckPoint::from_block_ids(&vec![b(0, 0xA0), b(1, 0xB0)]).expect("ascending"),
    )
    .expect("reaches genesis");
    let header = header_on(h(0xB0));
    let cs = chain
        .apply_header_connected_to(&header, 2, b(0, 0xA0))
        .expect("connects through the genesis block");
    assert_eq!(cs.get(2), Some(Some(header.block_hash())));
}

fn txo(
    position: ChainPosition<ConfirmationHeightAnchor>,
    spent_by: Option<(ChainPosition<ConfirmationHeightAnchor>, Txid)>,
    coinbase: bool,
) -> FullTxOut<ConfirmationHeightAnchor> {
    FullTxOut {
        outpoint: OutPoint::null(),
        txout: TxOut { value: Amount::from_sat(50_000), script_pubkey: ScriptBuf::new() },
        chain_position: position,
        spent_by,
        is_on_coinbase: coinbase,
    }
}

fn anchor_at(height: u32) -> ConfirmationHeightAnchor {
    ConfirmationHeightAnchor {
        anchor_block: BlockId { height, hash: h(0x11) },
        confirmation_height: height,
    }
}

#[test]
fn non_coinbase_is_always_mature() {
    let out = txo(ChainPosition::Confirmed(anchor_at(100)), None, false);
    assert!(out.is_mature(0));
    let out = txo(ChainPosition::Unconfirmed(1_000), None, false);
    assert!(out.is_mature(0));
}

#[test]
fn coinbase_matures_at_one_hundred_confirmations() {
    let out = txo(ChainPosition::Confirmed(anchor_at(10)), None, true);
    // 99 confirmations at tip 108: age 98, still immature
    assert!(!out.is_mature(108));
    // 100 confirmations at tip 109: age 99, mature
    assert!(out.is_mature(109));
    assert!(out.is_mature(200));
    // near the genesis the subtraction saturates at zero
    let out = txo(ChainPosition::Confirmed(anchor_at(10)), None, true);
    assert!(!out.is_mature(0));
}

#[test]
fn unconfirmed_coinbase_is_never_mature() {
    let out = txo(ChainPosition::Unconfirmed(1_000), None, true);
    assert!(!out.is_mature(u32::MAX));
}

#[test]
fn spendability_follows_confirmation_and_spends() {
    let unspent = txo(ChainPosition::Confirmed(anchor_at(10)), None, false);
    assert!(unspent.is_confirmed_and_spendable(10));
    // not yet confirmed at this tip
    assert!(!unspent.is_confirmed_and_spendable(9));
    // unconfirmed outputs are never spendable
    let mempool = txo(ChainPosition::Unconfirmed(1_000), None, false);
    assert!(!mempool.is_confirmed_and_spendable(100));
    // a spend confirmed within the tip makes the output unspendable
    let spent_low = txo(
        ChainPosition::Confirmed(anchor_at(10)),
        Some((ChainPosition::Confirmed(anchor_at(20)), <Txid as bitcoin::hashes::Hash>::all_zeros())),
        false,
    );
    assert!(!spent_low.is_confirmed_and_spendable(25));
    // a spend anchored above the tip does not count yet
    assert!(spent_low.is_confirmed_and_spendable(15));
    // an unconfirmed spend does not count either
    let spent_mempool = txo(
        ChainPosition::Confirmed(anchor_at(10)),
        Some((ChainPosition::Unconfirmed(9), <Txid as bitcoin::hashes::Hash>::all_zeros())),
        false,
    );
    assert!(spent_mempool.is_confirmed_and_spendable(25));
}

#[test]
fn chain_position_accessors() {
    let confirmed: ChainPosition<ConfirmationHeightAnchor> =
        ChainPosition::Confirmed(anchor_at(7));
    assert!(confirmed.is_confirmed());
    assert_eq!(confirmed.confirmation_height_upper_bound(), Some(7));
    let unconfirmed: ChainPosition<ConfirmationHeightAnchor> = ChainPosition::Unconfirmed(99);
    assert!(!unconfirmed.is_confirmed());
    assert_eq!(unconfirmed.confirmation_height_upper_bound(), None);

    let anchor = anchor_at(3);
    let borrowed: ChainPosition<&ConfirmationHeightAnchor> = ChainPosition::Confirmed(&anchor);
    assert_eq!(borrowed.cloned(), ChainPosition::Confirmed(anchor));
}

#[test]
fn block_id_conversions_and_order() {
    let id = BlockId::from((3u32, h(0x42)));
    assert_eq!(id, b(3, 0x42));
    let id2: BlockId = (&4u32, &h(0x43)).into();
    assert_eq!(id2, b(4, 0x43));
    let pair: (u32, BlockHash) = id.into();
    assert_eq!(pair, (3, h(0x42)));
    // the derived order compares height first
    assert!(b(2, 0xFF) < b(3, 0x01));
}

#[test]
fn anchor_variants_report_bounds() {
    let id = b(12, 0x22);
    assert_eq!(id.anchor_block(), id);
    assert_eq!(id.confirmation_height_upper_bound(), 12);
    let cha = ConfirmationHeightAnchor { anchor_block: b(12, 0x22), confirmation_height: 9 };
    assert_eq!(cha.anchor_block(), b(12, 0x22));
    assert_eq!(cha.confirmation_height_upper_bound(), 9);
    let ctha = ConfirmationTimeHeightAnchor {
        anchor_block: b(12, 0x22),
        confirmation_height: 9,
        confirmation_time: 500,
    };
    assert_eq!(ctha.anchor_block(), b(12, 0x22));
    assert_eq!(ctha.confirmation_height_upper_bound(), 9);
}

#[test]
fn confirmation_time_conversions() {
    assert_eq!(
        ConfirmationTime::unconfirmed(77),
        ConfirmationTime::Unconfirmed { last_seen: 77 },
    );
    assert!(!ConfirmationTime::unconfirmed(77).is_confirmed());
    assert!(ConfirmationTime::Confirmed { height: 3, time: 9 }.is_confirmed());

    let ctha = ConfirmationTimeHeightAnchor {
        anchor_block: b(12, 0x22),
        confirmation_height: 9,
        confirmation_time: 500,
    };
    let from_confirmed: ConfirmationTime = ChainPosition::Confirmed(ctha).into();
    assert_eq!(from_confirmed, ConfirmationTime::Confirmed { height: 9, time: 500 });
    let from_mempool: ConfirmationTime =
        ChainPosition::<ConfirmationTimeHeightAnchor>::Unconfirmed(41).into();
    assert_eq!(from_mempool, ConfirmationTime::Unconfirmed { last_seen: 41 });
}
