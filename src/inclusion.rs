//! Proofs: chains of blocks, leaf first, in which each block links to the one before.
use vstd::prelude::*;
use crate::bytes::copy_bytes;
use crate::content_id::{block_cid, cid_of_block};
use crate::error::Error;
use crate::link_scanner::{contains_link, links};

verus! {

/// The CID of `child` is among the links of `parent`.
pub open spec fn linked(child: Seq<u8>, parent: Seq<u8>) -> bool {
    links(parent).contains(block_cid(child))
}

/// Each block of `nodes` but the first links to the block before it.
pub open spec fn chain_valid(nodes: Seq<Seq<u8>>) -> bool {
    forall|i: int| 0 <= i < nodes.len() - 1 ==> #[trigger] linked(nodes[i], nodes[i + 1])
}

/// The pair at `i` is the first one in `nodes` whose upper block lacks the link.
pub open spec fn first_break(nodes: Seq<Seq<u8>>, i: int) -> bool {
    &&& 0 <= i < nodes.len() - 1
    &&& !linked(nodes[i], nodes[i + 1])
    &&& forall|j: int| 0 <= j < i ==> #[trigger] linked(nodes[j], nodes[j + 1])
}

/// The views of a list of byte strings.
pub open spec fn views(v: Seq<Vec<u8>>) -> Seq<Seq<u8>> {
    v.map_values(|b: Vec<u8>| b@)
}

/// An inclusion proof: the blocks of a chain, from the proven leaf to the root.
#[derive(Debug, PartialEq, Eq)]
pub struct Proof {
    nodes: Vec<Vec<u8>>,
}

impl View for Proof {
    type V = Seq<Seq<u8>>;

    closed spec fn view(&self) -> Seq<Seq<u8>> {
        views(self.nodes@)
    }
}

impl Proof {
    #[verifier::type_invariant]
    spec fn inv(&self) -> bool {
        self.nodes@.len() > 0
    }

    /// The proof made of `nodes`, leaf first; `None` where there is no node.
    pub fn from_nodes(nodes: Vec<Vec<u8>>) -> (r: Option<Proof>)
        ensures
            match r {
                Some(p) => p@ == views(nodes@),
                None => nodes@.len() == 0,
            },
    {
        if nodes.len() == 0 {
            None
        } else {
            Some(Proof { nodes })
        }
    }

    /// The proof made of the non-empty list `nodes`, leaf first.
    pub(crate) fn from_chain(nodes: Vec<Vec<u8>>) -> (r: Proof)
        requires
            nodes@.len() > 0,
        ensures
            r@ == views(nodes@),
    {
        Proof { nodes }
    }

    /// The blocks of the proof, leaf first.
    pub fn nodes(&self) -> (r: &[Vec<u8>])
        ensures
            views(r@) == self@,
    {
        self.nodes.as_slice()
    }

    /// The CID of the root: of the last block.
    pub fn root(&self) -> (r: Vec<u8>)
        ensures
            r@ == block_cid(self@.last()),
    {
        proof {
            use_type_invariant(self);
        }
        cid_of_block(&self.nodes[self.nodes.len() - 1])
    }

    /// Checks that each block but the leaf links to the CID of the block before it.
    /// The root is not compared with any expected root.
    pub fn validate(&self) -> (r: Result<(), Error>)
        ensures
            r is Ok <==> chain_valid(self@),
            r is Err <==> exists|i: int|
                0 <= i < self@.len() - 1 && !#[trigger] linked(self@[i], self@[i + 1]),
            match r {
                Ok(()) => true,
                Err(Error::InvalidProof { link, data }) => exists|i: int|
                    #![trigger self@[i]]
                    first_break(self@, i) && link@ == block_cid(self@[i]) && data@ == self@[i
                        + 1],
                Err(_) => false,
            },
    {
        proof {
            use_type_invariant(self);
        }
        let ghost nodes = self@;
        let mut prev = cid_of_block(&self.nodes[0]);
        let mut i: usize = 1;
        while i < self.nodes.len()
            invariant
                nodes == self@,
                nodes.len() == self.nodes@.len(),
                1 <= i <= nodes.len(),
                prev@ == block_cid(nodes[i - 1]),
                forall|j: int| 0 <= j < i - 1 ==> #[trigger] linked(nodes[j], nodes[j + 1]),
            decreases nodes.len() - i,
        {
            let node = &self.nodes[i];
            if !contains_link(node, &prev) {
                let data = copy_bytes(node);
                assert(first_break(nodes, i - 1));
                return Err(Error::InvalidProof { link: prev, data });
            }
            prev = cid_of_block(node);
            i = i + 1;
        }
        Ok(())
    }
}

} // verus!
