//! Shared constants and type aliases: the region and page geometry and the
//! width of the hash primitive's output.

use vstd::prelude::*;

verus! {

/// Base-2 logarithm of the memory region size in bytes.
pub const MEMORY_LOG2_SIZE: usize = 5;

/// Base-2 logarithm of the page size in bytes.
pub const PAGE_LOG2_SIZE: usize = 2;

/// Size of the memory region in bytes.
pub const MEMORY_SIZE: usize = 32;

/// Size of one page in bytes.
pub const PAGE_SIZE: usize = 4;

/// Number of leaves of the Merkle tree: one per page.
pub const N_LEAVES: usize = 8;

/// Width in bytes of the hash primitive's output.
pub const HASH_SIZE: usize = 32;

/// Byte offset of a page into the memory region.
pub type PageAddress = u64;

/// Contents of one page.
pub type PageData = [u8; 4];

/// Output of the hash primitive.
pub type ProofHash = [u8; 32];

/// The derived constants agree with the base-2 logarithms they come from.
pub proof fn lemma_sizes_consistent()
    ensures
        MEMORY_SIZE == (1usize << MEMORY_LOG2_SIZE),
        PAGE_SIZE == (1usize << PAGE_LOG2_SIZE),
        N_LEAVES * PAGE_SIZE == MEMORY_SIZE,
{
    assert(32usize == (1usize << 5usize)) by (bit_vector);
    assert(4usize == (1usize << 2usize)) by (bit_vector);
}

} // verus!
