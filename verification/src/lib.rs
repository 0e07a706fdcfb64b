//! Reconstruction of the Merkle root of a fixed-size memory region from two
//! partial data sources: a cache of known page contents and a multiproof of
//! precomputed subtree hashes covering the ranges the cache does not hold.

pub mod hashing;
pub mod laws;
pub mod merkle_proof;
pub mod model;
pub mod multiproof;
pub mod page_cache;
pub mod types;

pub use crate::merkle_proof::MerkleProof;
pub use crate::multiproof::Multiproof;
pub use crate::multiproof::MultiproofEntry;
pub use crate::page_cache::Page;
pub use crate::page_cache::PageCache;
pub use types::HASH_SIZE;
pub use types::MEMORY_SIZE;
pub use types::PAGE_SIZE;
