//! Mathematical model of the root reconstruction: how the leaf level is built
//! from the two sources, and how each level is reduced to the next until a
//! single slot remains. The executable code in `merkle_proof` is proved to
//! follow this model exactly.

use crate::hashing::keccak256;
use crate::hashing::spec_merge;
use crate::multiproof::EntryV;
use crate::page_cache::PageV;
use crate::types::MEMORY_SIZE;
use crate::types::N_LEAVES;
use crate::types::PAGE_SIZE;
use vstd::prelude::*;

verus! {

/// One slot of a tree level: a known hash, or unknown. Unknown propagates
/// upward unless a multiproof entry stands in for the whole subtree.
pub type Slot = Option<Seq<u8>>;

/// One leaf slot at page address `addr`: the cache's next page if it matches,
/// else the multiproof's next entry if it covers exactly the single-address
/// range `(addr, addr)`, else unknown. Returns the slot and what remains of
/// the two sources.
pub open spec fn spec_leaf_step(cache: Seq<PageV>, mp: Seq<EntryV>, addr: u64) -> (
    Slot,
    Seq<PageV>,
    Seq<EntryV>,
) {
    if cache.len() > 0 && cache[0].address == addr {
        (Some(keccak256(cache[0].data)), cache.drop_first(), mp)
    } else if mp.len() > 0 && mp[0].address_low == addr && mp[0].address_high == addr {
        (Some(mp[0].hash), cache, mp.drop_first())
    } else {
        (None, cache, mp)
    }
}

/// The leaf slots for pages `i`, `i + 1`, ... of the region, scanned in
/// ascending address order, together with what remains of the two sources.
pub open spec fn spec_build_leaves(cache: Seq<PageV>, mp: Seq<EntryV>, i: int) -> (
    Seq<Slot>,
    Seq<PageV>,
    Seq<EntryV>,
)
    decreases N_LEAVES - i,
{
    if i < 0 || i >= N_LEAVES {
        (Seq::empty(), cache, mp)
    } else {
        let step = spec_leaf_step(cache, mp, (i * PAGE_SIZE) as u64);
        let rest = spec_build_leaves(step.1, step.2, i + 1);
        (seq![step.0] + rest.0, rest.1, rest.2)
    }
}

/// The leaf level holds one slot per page of the region.
pub proof fn lemma_build_leaves_len(cache: Seq<PageV>, mp: Seq<EntryV>, i: int)
    ensures
        0 <= i <= N_LEAVES ==> spec_build_leaves(cache, mp, i).0.len() == N_LEAVES - i,
    decreases N_LEAVES - i,
{
    if 0 <= i < N_LEAVES {
        let step = spec_leaf_step(cache, mp, (i * PAGE_SIZE) as u64);
        lemma_build_leaves_len(step.1, step.2, i + 1);
    }
}

/// The parent of the pair of slots at indices `2 * j` and `2 * j + 1`: the
/// merge of two known children, else the multiproof's next entry if it covers
/// exactly the parent's address span, else unknown.
pub open spec fn spec_pair_step(level: Seq<Slot>, mp: Seq<EntryV>, j: int) -> (Slot, Seq<EntryV>) {
    let entry_size = (MEMORY_SIZE as int) / (level.len() as int / 2);
    match (level[2 * j], level[2 * j + 1]) {
        (Some(left), Some(right)) => (Some(spec_merge(left, right)), mp),
        _ => {
            if mp.len() > 0 && mp[0].address_low == j * entry_size && mp[0].address_high == j
                * entry_size + entry_size - 1 {
                (Some(mp[0].hash), mp.drop_first())
            } else {
                (None, mp)
            }
        },
    }
}

/// The parent slots for pairs `j`, `j + 1`, ... of a level, scanned in
/// ascending address order, together with what remains of the multiproof.
pub open spec fn spec_bubble_level(level: Seq<Slot>, mp: Seq<EntryV>, j: int) -> (
    Seq<Slot>,
    Seq<EntryV>,
)
    decreases level.len() / 2 - j,
{
    if j < 0 || j >= level.len() / 2 {
        (Seq::empty(), mp)
    } else {
        let step = spec_pair_step(level, mp, j);
        let rest = spec_bubble_level(level, step.1, j + 1);
        (seq![step.0] + rest.0, rest.1)
    }
}

/// A reduced level is half as wide as the level it came from.
pub proof fn lemma_bubble_level_len(level: Seq<Slot>, mp: Seq<EntryV>, j: int)
    ensures
        0 <= j <= level.len() / 2 ==> spec_bubble_level(level, mp, j).0.len() == level.len() / 2
            - j,
    decreases level.len() / 2 - j,
{
    if 0 <= j < level.len() / 2 {
        let step = spec_pair_step(level, mp, j);
        lemma_bubble_level_len(level, step.1, j + 1);
    }
}

/// Repeated pairwise reduction of a level until one slot remains: the root
/// slot, together with what remains of the multiproof.
pub open spec fn spec_reduce(level: Seq<Slot>, mp: Seq<EntryV>) -> (Slot, Seq<EntryV>)
    decreases level.len(),
    via spec_reduce_decreases
{
    if level.len() <= 1 {
        (if level.len() == 1 {
            level[0]
        } else {
            None
        }, mp)
    } else {
        let b = spec_bubble_level(level, mp, 0);
        spec_reduce(b.0, b.1)
    }
}

#[via_fn]
proof fn spec_reduce_decreases(level: Seq<Slot>, mp: Seq<EntryV>) {
    if level.len() > 1 {
        lemma_bubble_level_len(level, mp, 0);
    }
}

/// The whole computation: build the leaf level from both sources, then reduce
/// it to the root slot. `Some` holds the reconstructed root; `None` means
/// that along some path to the root a subtree had no data from either source.
pub open spec fn spec_root(cache: Seq<PageV>, mp: Seq<EntryV>) -> Option<Seq<u8>> {
    let built = spec_build_leaves(cache, mp, 0);
    spec_reduce(built.0, built.2).0
}

} // verus!
