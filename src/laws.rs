//! Properties that relate the generator, the witness table and validation.
use vstd::prelude::*;
use crate::content_id::block_cid;
use crate::generator::{has_key, observe, search_result, top_is_maximal, Witnesses};
use crate::inclusion::chain_valid;

verus! {

/// Every proof that the generator can return validates: each block after the leaf
/// links to the block before it.
pub proof fn lemma_generated_proof_validates(
    t: Witnesses,
    leaf: Seq<u8>,
    root: Option<Seq<u8>>,
    nodes: Seq<Seq<u8>>,
)
    requires
        search_result(t, leaf, root, nodes),
    ensures
        chain_valid(nodes),
        nodes[0] == leaf,
{
}

/// A proof requested up to the leaf's own CID is the leaf alone, and it validates.
pub proof fn lemma_single_node_proof(t: Witnesses, leaf: Seq<u8>, nodes: Seq<Seq<u8>>)
    requires
        search_result(t, leaf, Some(block_cid(leaf)), nodes),
    ensures
        nodes == seq![leaf],
        chain_valid(nodes),
{
    if nodes.len() > 1 {
        assert(block_cid(nodes[0]) != block_cid(leaf));
    }
    assert(nodes =~= seq![leaf]);
}

/// A proof up to `root` starts with the leaf and validates; where it does not end at
/// `root`, every observed block that links to its top already stands in the proof or
/// the top's CID repeats lower in it, which an acyclic DAG rules out.
pub proof fn lemma_proof_to_root(t: Witnesses, leaf: Seq<u8>, root: Seq<u8>, nodes: Seq<Seq<u8>>)
    requires
        search_result(t, leaf, Some(root), nodes),
    ensures
        nodes[0] == leaf,
        chain_valid(nodes),
        block_cid(nodes.last()) == root || top_is_maximal(t, nodes),
{
}

/// Observing more blocks, related or not, never loses a block already observed: a
/// leaf that could be proven still can, and what is proven still validates.
pub proof fn lemma_observe_keeps(t: Witnesses, cid: Seq<u8>, bytes: Seq<u8>, leaf_cid: Seq<u8>)
    requires
        has_key(t, leaf_cid),
    ensures
        has_key(observe(t, cid, bytes), leaf_cid),
{
    if !has_key(t, cid) {
        let i = choose|i: int| 0 <= i < t.len() && t[i].0 == leaf_cid;
        assert(observe(t, cid, bytes)[i].0 == leaf_cid);
    }
}

} // verus!
