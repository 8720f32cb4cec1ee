//! Inclusion proofs over content-addressed DAGs of CBOR blocks.
//!
//! A [`ProofGenerator`] records the blocks that pass through it; it can then build a
//! [`Proof`]: a chain of blocks, leaf first, in which each block's CID appears as a
//! link inside the next one. A proof is validated without access to any store.
pub mod bytes;
pub mod cbor;
pub mod content_id;
pub mod error;
pub mod link_scanner;
pub mod wire;
pub mod generator;
pub mod inclusion;
pub mod laws;

pub use crate::error::Error;
pub use crate::generator::ProofGenerator;
pub use crate::inclusion::Proof;
pub use crate::link_scanner::LinkScanner;
