//! Content identifiers, carried as their binary form (`Cid::to_bytes`).
use vstd::prelude::*;

verus! {

/// The binary form of the CID of a block: a CIDv1 with the dag-cbor codec over the
/// Blake2b-256 digest of the block's bytes.
pub uninterp spec fn block_cid(block: Seq<u8>) -> Seq<u8>;

/// The binary form of the CID that `forest_cid` reads from the front of `b`, or `None`
/// where no CID can be read there.
pub uninterp spec fn parsed_cid(b: Seq<u8>) -> Option<Seq<u8>>;

/// Relies on `forest_cid::new_from_cbor` with `Code::Blake2b256` and `Cid::to_bytes`:
/// the CID depends on the block's bytes alone.
#[verifier::external_body]
pub(crate) fn cid_of_block(block: &[u8]) -> (r: Vec<u8>)
    ensures
        r@ == block_cid(block@),
{
    forest_cid::new_from_cbor(block, forest_cid::Code::Blake2b256).to_bytes()
}

/// Relies on `forest_cid::Cid::try_from(&[u8])` and `Cid::to_bytes`: reading a CID
/// from bytes depends on the bytes alone.
#[verifier::external_body]
pub(crate) fn parse_cid(b: &[u8]) -> (r: Option<Vec<u8>>)
    ensures
        match r {
            Some(v) => parsed_cid(b@) == Some(v@),
            None => parsed_cid(b@) is None,
        },
{
    match forest_cid::Cid::try_from(b) {
        Ok(c) => Some(c.to_bytes()),
        Err(_) => None,
    }
}

} // verus!
