//! Errors of proof generation, validation and decoding.
use vstd::prelude::*;

verus! {

/// What can go wrong while building, checking or reading a proof.
#[derive(Debug, PartialEq, Eq)]
pub enum Error {
    /// The block to prove was never observed by the generator.
    NodeNotFound,
    /// The CID `link` was not found among the links of the block `data`.
    InvalidProof { link: Vec<u8>, data: Vec<u8> },
    /// The item to prove could not be encoded to CBOR; the encoder's message.
    Encoding(String),
    /// The bytes are not the wire form of a proof.
    Malformed,
}

impl Error {
    /// A human-readable description of the error.
    pub fn message(&self) -> (r: String) {
        match self {
            Error::NodeNotFound => String::from_str(
                "node attempted to prove was not visited by the proof generator",
            ),
            Error::InvalidProof { .. } => String::from_str("invalid proof: cid not found in node"),
            Error::Encoding(m) => m.clone(),
            Error::Malformed => String::from_str("bytes are not an encoded proof"),
        }
    }
}

} // verus!
