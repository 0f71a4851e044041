//! Trusted declarations for the types of the `bitcoin` crate that the chain
//! tracker consumes: opaque hashes, block headers and transaction data.
//!
//! The chain logic never looks inside these values; it only moves them around
//! and compares hashes for equality.

use vstd::prelude::*;

verus! {

#[verifier::external_type_specification]
#[verifier::external_body]
pub struct ExBlockHash(bitcoin::BlockHash);

#[verifier::external_type_specification]
#[verifier::external_body]
pub struct ExHeader(bitcoin::block::Header);

#[verifier::external_type_specification]
#[verifier::external_body]
pub struct ExOutPoint(bitcoin::OutPoint);

#[verifier::external_type_specification]
#[verifier::external_body]
pub struct ExTxOut(bitcoin::TxOut);

#[verifier::external_type_specification]
#[verifier::external_body]
pub struct ExTxid(bitcoin::Txid);

/// Relies on `bitcoin::BlockHash`'s derived `PartialEq`, which compares the
/// 32 hash bytes; two hash values are `eq` exactly when they are the same
/// value.
pub assume_specification[ <bitcoin::BlockHash as PartialEq>::eq ](
    x: &bitcoin::BlockHash,
    y: &bitcoin::BlockHash,
) -> (r: bool)
    ensures
        r == (x == y),
;

/// The block hash that `bitcoin::block::Header::block_hash` computes for a
/// header; it is a function of the header's fields alone.
pub uninterp spec fn hash_of_header(h: bitcoin::block::Header) -> bitcoin::BlockHash;

/// The `prev_blockhash` field of a header.
pub uninterp spec fn prev_of_header(h: bitcoin::block::Header) -> bitcoin::BlockHash;

/// Relies on `bitcoin::block::Header::block_hash`: the double-SHA256 of the
/// serialized header, a deterministic function of the header value.
#[verifier::external_body]
pub fn header_block_hash(header: &bitcoin::block::Header) -> (r: bitcoin::BlockHash)
    ensures
        r == hash_of_header(*header),
{
    header.block_hash()
}

/// Relies on reading the public `prev_blockhash` field of
/// `bitcoin::block::Header`.
#[verifier::external_body]
pub fn header_prev_blockhash(header: &bitcoin::block::Header) -> (r: bitcoin::BlockHash)
    ensures
        r == prev_of_header(*header),
{
    header.prev_blockhash
}

/// Relies on `bitcoin::OutPoint`'s derived `Clone` (the type is `Copy`): the
/// clone is the same value.
pub assume_specification[ <bitcoin::OutPoint as Clone>::clone ](v: &bitcoin::OutPoint) -> (r:
    bitcoin::OutPoint)
    ensures
        r == *v,
;

/// Relies on `bitcoin::TxOut`'s derived `Clone`: the clone equals the
/// original value.
pub assume_specification[ <bitcoin::TxOut as Clone>::clone ](v: &bitcoin::TxOut) -> (r:
    bitcoin::TxOut)
    ensures
        r == *v,
;

/// Relies on `bitcoin::BlockHash`'s derived `Clone` (the type is `Copy`):
/// the clone is the same value.
pub assume_specification[ <bitcoin::BlockHash as Clone>::clone ](v: &bitcoin::BlockHash) -> (r:
    bitcoin::BlockHash)
    ensures
        r == *v,
;

} // verus!
