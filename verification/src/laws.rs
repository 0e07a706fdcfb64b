//! General properties of the reconstruction, stated and proved against the
//! model in `model`: a cache and a multiproof that exactly cover the region,
//! at any mix of levels, reproduce the root of the full tree, and a region
//! with a gap in coverage is always reported incomplete, never answered with
//! a partially-derived root.
//!
//! Coverage is described by one value per leaf: `-1` when the leaf's page is
//! in the cache, a level `0 ..= 3` when a multiproof entry at that level
//! supplies the subtree holding the leaf, and `4` when no source covers it.

use crate::hashing::keccak256;
use crate::hashing::spec_merge;
use crate::model::spec_bubble_level;
use crate::model::spec_build_leaves;
use crate::model::spec_leaf_step;
use crate::model::spec_pair_step;
use crate::model::spec_reduce;
use crate::model::spec_root;
use crate::model::Slot;
use crate::multiproof::EntryV;
use crate::page_cache::PageV;
use crate::types::N_LEAVES;
use crate::types::PAGE_SIZE;
use vstd::prelude::*;

verus! {

/// Number of leaves under one node of the given level (leaves are level 0,
/// the root is level 3).
pub open spec fn block_size(lvl: int) -> int {
    if lvl <= 0 {
        1
    } else if lvl == 1 {
        2
    } else if lvl == 2 {
        4
    } else {
        8
    }
}

/// Number of nodes of the given level.
pub open spec fn level_width(lvl: int) -> int {
    if lvl <= 0 {
        8
    } else if lvl == 1 {
        4
    } else if lvl == 2 {
        2
    } else {
        1
    }
}

/// The hash of node `j` of the given level of the tree over the full page
/// data `mem`: leaves are the hashes of the pages, inner nodes the merge of
/// their two children, lower-address child first.
pub open spec fn true_node(mem: Seq<Seq<u8>>, lvl: int, j: int) -> Seq<u8>
    decreases lvl,
{
    if lvl <= 0 {
        keccak256(mem[j])
    } else {
        spec_merge(true_node(mem, lvl - 1, 2 * j), true_node(mem, lvl - 1, 2 * j + 1))
    }
}

/// Every leaf's coverage is a source: cache, a multiproof level, or none.
pub open spec fn cov_in_range(cov: Seq<int>) -> bool {
    forall|i: int| 0 <= i < cov.len() ==> -1 <= #[trigger] cov[i] <= 4
}

/// A multiproof entry covers a whole aligned subtree: every leaf under the
/// node at the entry's level shares that coverage.
pub open spec fn cov_blocks_whole(cov: Seq<int>) -> bool {
    forall|i: int, i2: int|
        0 <= i < 8 && 0 <= i2 < 8 && 0 <= #[trigger] cov[i] <= 3 && i2 / block_size(cov[i]) == i
            / block_size(cov[i]) ==> #[trigger] cov[i2] == cov[i]
}

/// A well-formed description of where each leaf's data comes from.
pub open spec fn wf_cov(cov: Seq<int>) -> bool {
    &&& cov.len() == N_LEAVES
    &&& cov_in_range(cov)
    &&& cov_blocks_whole(cov)
}

/// Node `j` of the given level is determined by the sources at or below that
/// level: every leaf under it is covered at that level or lower.
pub open spec fn slot_known(cov: Seq<int>, lvl: int, j: int) -> bool {
    forall|i: int|
        j * block_size(lvl) <= i < (j + 1) * block_size(lvl) ==> #[trigger] cov[i] <= lvl
}

/// The tree level the reduction reaches after `lvl` steps: each slot holds
/// the true node hash where the sources determine it, and is unknown where
/// they do not (yet, or never).
pub open spec fn level_view(mem: Seq<Seq<u8>>, cov: Seq<int>, lvl: int) -> Seq<Slot> {
    Seq::new(
        level_width(lvl) as nat,
        |j: int|
            if slot_known(cov, lvl, j) {
                Some(true_node(mem, lvl, j))
            } else {
                None
            },
    )
}

/// The cache that the coverage describes: the pages of the leaves marked
/// `-1`, in ascending address order.
pub open spec fn cache_from(mem: Seq<Seq<u8>>, cov: Seq<int>, i: int) -> Seq<PageV>
    decreases 8 - i,
{
    if i < 0 || i >= 8 {
        Seq::empty()
    } else if cov[i] == -1 {
        seq![PageV { address: (i * PAGE_SIZE) as u64, data: mem[i] }] + cache_from(mem, cov, i + 1)
    } else {
        cache_from(mem, cov, i + 1)
    }
}

/// The multiproof entry standing for node `j` of the given level: its exact
/// address span and the true subtree hash. A leaf entry's span is the single
/// page address; an inner entry's span is the node's full byte range.
pub open spec fn entry_at(mem: Seq<Seq<u8>>, lvl: int, j: int) -> EntryV {
    let low = j * PAGE_SIZE * block_size(lvl);
    let high = if lvl == 0 {
        low
    } else {
        low + PAGE_SIZE * block_size(lvl) - 1
    };
    EntryV { address_low: low as u64, address_high: high as u64, hash: true_node(mem, lvl, j) }
}

/// The multiproof entries of one level, for nodes `j` and up, in ascending
/// address order: one per node whose subtree the coverage assigns to that
/// level.
pub open spec fn level_entries(mem: Seq<Seq<u8>>, cov: Seq<int>, lvl: int, j: int) -> Seq<EntryV>
    decreases level_width(lvl) - j,
{
    if j < 0 || j >= level_width(lvl) {
        Seq::empty()
    } else if cov[j * block_size(lvl)] == lvl {
        seq![entry_at(mem, lvl, j)] + level_entries(mem, cov, lvl, j + 1)
    } else {
        level_entries(mem, cov, lvl, j + 1)
    }
}

/// The whole multiproof that the coverage describes, from the given level
/// up: exactly the order the reduction scan consumes, levels bottom-up and
/// each level in ascending address order.
pub open spec fn mp_from(mem: Seq<Seq<u8>>, cov: Seq<int>, lvl: int) -> Seq<EntryV>
    decreases 4 - lvl,
{
    if lvl < 0 || lvl >= 4 {
        Seq::empty()
    } else {
        level_entries(mem, cov, lvl, 0) + mp_from(mem, cov, lvl + 1)
    }
}

/// The first remaining cache page comes from some still-uncovered leaf at or
/// beyond the scan position.
proof fn lemma_cache_from_first(mem: Seq<Seq<u8>>, cov: Seq<int>, i: int)
    requires
        0 <= i <= 8,
    ensures
        cache_from(mem, cov, i).len() > 0 ==> exists|i2: int|
            i <= i2 < 8 && #[trigger] cov[i2] == -1 && cache_from(mem, cov, i)[0] == (PageV {
                address: (i2 * PAGE_SIZE) as u64,
                data: mem[i2],
            }),
    decreases 8 - i,
{
    if 0 <= i < 8 {
        if cov[i] == -1 {
            assert(cache_from(mem, cov, i)[0] == (PageV {
                address: (i * PAGE_SIZE) as u64,
                data: mem[i],
            }));
        } else {
            lemma_cache_from_first(mem, cov, i + 1);
        }
    }
}

/// The first remaining entry of one level stands for some node at or beyond
/// the scan position whose subtree the coverage assigns to that level.
proof fn lemma_level_entries_first(mem: Seq<Seq<u8>>, cov: Seq<int>, lvl: int, j: int)
    requires
        0 <= lvl <= 3,
        0 <= j,
    ensures
        level_entries(mem, cov, lvl, j).len() > 0 ==> exists|j2: int|
            j <= j2 < level_width(lvl) && #[trigger] cov[j2 * block_size(lvl)] == lvl
                && level_entries(mem, cov, lvl, j)[0] == entry_at(mem, lvl, j2),
    decreases level_width(lvl) - j,
{
    if j < level_width(lvl) {
        if cov[j * block_size(lvl)] == lvl {
            assert(level_entries(mem, cov, lvl, j)[0] == entry_at(mem, lvl, j));
        } else {
            lemma_level_entries_first(mem, cov, lvl, j + 1);
        }
    }
}

/// The first remaining multiproof entry stands for some node at the given
/// level or above whose subtree the coverage assigns to its level.
proof fn lemma_mp_from_first(mem: Seq<Seq<u8>>, cov: Seq<int>, lvl: int)
    requires
        0 <= lvl,
    ensures
        mp_from(mem, cov, lvl).len() > 0 ==> exists|l2: int, j2: int|
            lvl <= l2 <= 3 && 0 <= j2 < level_width(l2) && #[trigger] cov[j2 * block_size(l2)]
                == l2 && mp_from(mem, cov, lvl)[0] == entry_at(mem, l2, j2),
    decreases 4 - lvl,
{
    if lvl < 4 {
        lemma_level_entries_first(mem, cov, lvl, 0);
        lemma_mp_from_first(mem, cov, lvl + 1);
        let le = level_entries(mem, cov, lvl, 0);
        let rest = mp_from(mem, cov, lvl + 1);
        if le.len() > 0 {
            let j2 = choose|j2: int|
                0 <= j2 < level_width(lvl) && #[trigger] cov[j2 * block_size(lvl)] == lvl && le[0]
                    == entry_at(mem, lvl, j2);
            assert(mp_from(mem, cov, lvl)[0] == entry_at(mem, lvl, j2));
        } else if rest.len() > 0 {
            assert(mp_from(mem, cov, lvl)[0] == rest[0]);
        }
    }
}

/// The exact address span of the entry standing for a node: level 0 entries
/// span the single page address, entries of level `lvl >= 1` span the node's
/// whole byte range, `4 * block_size(lvl)` bytes.
proof fn lemma_entry_at_ranges(mem: Seq<Seq<u8>>, lvl: int, j: int)
    requires
        0 <= lvl <= 3,
        0 <= j < level_width(lvl),
    ensures
        entry_at(mem, lvl, j).address_low as int == j * PAGE_SIZE * block_size(lvl),
        0 <= entry_at(mem, lvl, j).address_low as int <= 28,
        entry_at(mem, lvl, j).address_high as int == (if lvl == 0 {
            entry_at(mem, lvl, j).address_low as int
        } else {
            entry_at(mem, lvl, j).address_low as int + PAGE_SIZE * block_size(lvl) - 1
        }),
        entry_at(mem, lvl, j).address_high as int <= 31,
{
    if lvl == 0 {
        assert(j * 4 * 1 <= 28);
    } else if lvl == 1 {
        assert(j * 4 * 2 <= 24);
    } else if lvl == 2 {
        assert(j * 4 * 4 <= 16);
    } else {
        assert(j * 4 * 8 == 0);
    }
}

/// Building the leaf level from a cache and a multiproof that the coverage
/// describes: scanning from leaf `i`, every leaf covered at level 0 or by
/// the cache gets its true hash, every other leaf is unknown, the cache is
/// drained, and exactly the level-0 entries are consumed.
proof fn lemma_build_from_coverage(mem: Seq<Seq<u8>>, cov: Seq<int>, i: int)
    requires
        mem.len() == 8,
        wf_cov(cov),
        0 <= i <= 8,
    ensures
        ({
            let built = spec_build_leaves(
                cache_from(mem, cov, i),
                level_entries(mem, cov, 0, i) + mp_from(mem, cov, 1),
                i,
            );
            &&& built.0 == level_view(mem, cov, 0).skip(i)
            &&& built.1 == Seq::<PageV>::empty()
            &&& built.2 == mp_from(mem, cov, 1)
        }),
    decreases 8 - i,
{
    let cache = cache_from(mem, cov, i);
    let rem = level_entries(mem, cov, 0, i) + mp_from(mem, cov, 1);
    let built = spec_build_leaves(cache, rem, i);
    if i == 8 {
        assert(level_entries(mem, cov, 0, 8) =~= Seq::<EntryV>::empty());
        assert(rem =~= mp_from(mem, cov, 1));
        assert(built.0 =~= level_view(mem, cov, 0).skip(8));
    } else {
        let addr = (i * PAGE_SIZE) as u64;
        let step = spec_leaf_step(cache, rem, addr);
        lemma_build_from_coverage(mem, cov, i + 1);
        let slot_i = level_view(mem, cov, 0)[i];
        if cov[i] == -1 {
            // the cache's next page is exactly this leaf
            assert(cache == seq![PageV { address: addr, data: mem[i] }] + cache_from(
                mem,
                cov,
                i + 1,
            ));
            assert(cache[0].address == addr);
            assert(step.0 == Some(keccak256(mem[i])));
            assert(step.1 =~= cache_from(mem, cov, i + 1));
            assert(step.2 == rem);
            assert(level_entries(mem, cov, 0, i) == level_entries(mem, cov, 0, i + 1));
            assert(slot_known(cov, 0, i)) by {
                assert(forall|k: int| i * 1 <= k < (i + 1) * 1 ==> #[trigger] cov[k] <= 0);
            }
            assert(slot_i == Some(true_node(mem, 0, i)));
        } else {
            // the cache's next page, if any, belongs to a later leaf
            assert(cache == cache_from(mem, cov, i + 1));
            if cache.len() > 0 {
                lemma_cache_from_first(mem, cov, i + 1);
                let i2 = choose|i2: int|
                    i + 1 <= i2 < 8 && #[trigger] cov[i2] == -1 && cache[0] == (PageV {
                        address: (i2 * PAGE_SIZE) as u64,
                        data: mem[i2],
                    });
                assert(i2 * PAGE_SIZE != i * PAGE_SIZE);
                assert(cache[0].address != addr);
            }
            if cov[i] == 0 {
                // the multiproof's next entry is exactly this single-leaf range
                assert(level_entries(mem, cov, 0, i) == seq![entry_at(mem, 0, i)] + level_entries(
                    mem,
                    cov,
                    0,
                    i + 1,
                ));
                lemma_entry_at_ranges(mem, 0, i);
                assert(rem[0] == entry_at(mem, 0, i));
                assert(rem[0].address_low == addr && rem[0].address_high == addr);
                assert(step.0 == Some(true_node(mem, 0, i)));
                assert(step.1 == cache);
                assert(step.2 =~= level_entries(mem, cov, 0, i + 1) + mp_from(mem, cov, 1));
                assert(slot_known(cov, 0, i)) by {
                    assert(forall|k: int| i * 1 <= k < (i + 1) * 1 ==> #[trigger] cov[k] <= 0);
                }
                assert(slot_i == Some(true_node(mem, 0, i)));
            } else {
                // neither source holds this leaf: the next entry, if any, is
                // a later leaf's range or a wider range of a higher level
                assert(level_entries(mem, cov, 0, i) == level_entries(mem, cov, 0, i + 1));
                if rem.len() > 0 {
                    let le = level_entries(mem, cov, 0, i + 1);
                    if le.len() > 0 {
                        lemma_level_entries_first(mem, cov, 0, i + 1);
                        let j2 = choose|j2: int|
                            i + 1 <= j2 < level_width(0) && #[trigger] cov[j2 * block_size(0)] == 0
                                && le[0] == entry_at(mem, 0, j2);
                        lemma_entry_at_ranges(mem, 0, j2);
                        assert(rem[0] == le[0]);
                        assert(j2 * PAGE_SIZE * 1 != i * PAGE_SIZE);
                        assert(rem[0].address_low != addr);
                    } else {
                        lemma_mp_from_first(mem, cov, 1);
                        assert(rem[0] == mp_from(mem, cov, 1)[0]);
                        let (l2, j2) = choose|l2: int, j2: int|
                            1 <= l2 <= 3 && 0 <= j2 < level_width(l2) && #[trigger] cov[j2
                                * block_size(l2)] == l2 && mp_from(mem, cov, 1)[0] == entry_at(
                                mem,
                                l2,
                                j2,
                            );
                        lemma_entry_at_ranges(mem, l2, j2);
                        assert(rem[0].address_high as int > rem[0].address_low as int);
                        assert(!(rem[0].address_low == addr && rem[0].address_high == addr));
                    }
                }
                assert(step.0 is None);
                assert(step.1 == cache);
                assert(step.2 == rem);
                assert(!slot_known(cov, 0, i)) by {
                    assert(i * 1 <= i < (i + 1) * 1 && cov[i] > 0);
                }
                assert(slot_i is None);
            }
        }
        // stitch the slot onto the tail of the level
        let rest = spec_build_leaves(step.1, step.2, i + 1);
        assert(built.0 == seq![step.0] + rest.0);
        assert(rest.0 == level_view(mem, cov, 0).skip(i + 1));
        assert(step.0 == slot_i);
        assert(built.0 =~= level_view(mem, cov, 0).skip(i));
        assert(built.1 == rest.1);
        assert(built.2 == rest.2);
    }
}

/// Reducing one level built from exact coverage: scanning pairs from `j`,
/// a pair of known children merges into the true parent hash, a parent
/// whose subtree the coverage assigns to the parent level takes its entry,
/// and every other parent is unknown; exactly the parent level's entries
/// are consumed.
proof fn lemma_bubble_from_coverage(mem: Seq<Seq<u8>>, cov: Seq<int>, lvl: int, j: int)
    requires
        mem.len() == 8,
        wf_cov(cov),
        0 <= lvl <= 2,
        0 <= j <= level_width(lvl + 1),
    ensures
        ({
            let b = spec_bubble_level(
                level_view(mem, cov, lvl),
                level_entries(mem, cov, lvl + 1, j) + mp_from(mem, cov, lvl + 2),
                j,
            );
            &&& b.0 == level_view(mem, cov, lvl + 1).skip(j)
            &&& b.1 == mp_from(mem, cov, lvl + 2)
        }),
    decreases level_width(lvl + 1) - j,
{
    let bs = block_size(lvl);
    let bsp = block_size(lvl + 1);
    let w = level_width(lvl);
    let wp = level_width(lvl + 1);
    let level = level_view(mem, cov, lvl);
    let rem = level_entries(mem, cov, lvl + 1, j) + mp_from(mem, cov, lvl + 2);
    let b = spec_bubble_level(level, rem, j);
    assert(level.len() == w);
    if lvl == 0 {
        assert(bs == 1 && bsp == 2 && w == 8 && wp == 4);
    } else if lvl == 1 {
        assert(bs == 2 && bsp == 4 && w == 4 && wp == 2);
    } else {
        assert(bs == 4 && bsp == 8 && w == 2 && wp == 1);
    }
    assert(bsp == 2 * bs && w == 2 * wp && w / 2 == wp);
    if j == wp {
        assert(level_entries(mem, cov, lvl + 1, wp) =~= Seq::<EntryV>::empty());
        assert(rem =~= mp_from(mem, cov, lvl + 2));
        assert(b.0 =~= level_view(mem, cov, lvl + 1).skip(j));
    } else {
        let es = (32int) / (level.len() as int / 2);
        assert(es == 4 * bsp);
        let step = spec_pair_step(level, rem, j);
        let left = level[2 * j];
        let right = level[2 * j + 1];
        assert(left == (if slot_known(cov, lvl, 2 * j) {
            Some(true_node(mem, lvl, 2 * j))
        } else {
            None
        }));
        assert(right == (if slot_known(cov, lvl, 2 * j + 1) {
            Some(true_node(mem, lvl, 2 * j + 1))
        } else {
            None
        }));
        let slot_j = level_view(mem, cov, lvl + 1)[j];
        if slot_known(cov, lvl, 2 * j) && slot_known(cov, lvl, 2 * j + 1) {
            // both children known: the parent is their merge
            assert(step.0 == Some(spec_merge(true_node(mem, lvl, 2 * j), true_node(mem, lvl, 2 * j + 1))));
            assert(step.0 == Some(true_node(mem, lvl + 1, j)));
            assert(step.1 == rem);
            assert(slot_known(cov, lvl + 1, j)) by {
                assert forall|i: int| j * bsp <= i < (j + 1) * bsp implies #[trigger] cov[i] <= lvl
                    + 1 by {
                    if i < (2 * j + 1) * bs {
                        assert((2 * j) * bs <= i < (2 * j + 1) * bs);
                        assert(cov[i] <= lvl);
                    } else {
                        assert((2 * j + 1) * bs <= i < (2 * j + 2) * bs);
                        assert(cov[i] <= lvl);
                    }
                }
            }
            assert(slot_j == Some(true_node(mem, lvl + 1, j)));
            // no entry of the parent level stands for this covered node
            assert((2 * j) * bs <= j * bsp < (2 * j + 1) * bs);
            assert(cov[j * bsp] <= lvl);
            assert(level_entries(mem, cov, lvl + 1, j) == level_entries(mem, cov, lvl + 1, j + 1));
        } else {
            // some leaf under this parent is not covered at the child level
            let i0 = if !slot_known(cov, lvl, 2 * j) {
                choose|i0: int|
                    (2 * j) * bs <= i0 < (2 * j + 1) * bs && #[trigger] cov[i0] > lvl
            } else {
                choose|i0: int|
                    (2 * j + 1) * bs <= i0 < (2 * j + 2) * bs && #[trigger] cov[i0] > lvl
            };
            assert(j * bsp <= i0 < (j + 1) * bsp && cov[i0] > lvl);
            assert(!(left is Some && right is Some));
            if cov[j * bsp] == lvl + 1 {
                // the multiproof's next entry is exactly this parent's span
                assert(level_entries(mem, cov, lvl + 1, j) == seq![entry_at(mem, lvl + 1, j)]
                    + level_entries(mem, cov, lvl + 1, j + 1));
                lemma_entry_at_ranges(mem, lvl + 1, j);
                assert(rem[0] == entry_at(mem, lvl + 1, j));
                assert(rem[0].address_low as int == j * es);
                assert(rem[0].address_high as int == j * es + es - 1);
                assert(step.0 == Some(true_node(mem, lvl + 1, j)));
                assert(step.1 =~= level_entries(mem, cov, lvl + 1, j + 1) + mp_from(
                    mem,
                    cov,
                    lvl + 2,
                ));
                assert(slot_known(cov, lvl + 1, j)) by {
                    assert forall|i: int| j * bsp <= i < (j + 1) * bsp implies #[trigger] cov[i]
                        <= lvl + 1 by {
                        assert(i / bsp == j);
                        assert((j * bsp) / bsp == j);
                        assert(cov[i] == lvl + 1);
                    }
                }
                assert(slot_j == Some(true_node(mem, lvl + 1, j)));
            } else {
                // no leaf under this parent is covered at the parent level
                assert forall|i: int| j * bsp <= i < (j + 1) * bsp implies #[trigger] cov[i] != lvl
                    + 1 by {
                    if cov[i] == lvl + 1 {
                        assert(i / bsp == j);
                        assert((j * bsp) / bsp == j);
                        assert(cov[j * bsp] == lvl + 1);
                    }
                }
                assert(cov[i0] > lvl + 1);
                assert(!slot_known(cov, lvl + 1, j));
                assert(slot_j is None);
                // the next entry, if any, is a later node's span of the same
                // level or a wider span of a higher level
                assert(level_entries(mem, cov, lvl + 1, j) == level_entries(
                    mem,
                    cov,
                    lvl + 1,
                    j + 1,
                ));
                if rem.len() > 0 {
                    let le = level_entries(mem, cov, lvl + 1, j + 1);
                    if le.len() > 0 {
                        lemma_level_entries_first(mem, cov, lvl + 1, j + 1);
                        let j2 = choose|j2: int|
                            j + 1 <= j2 < level_width(lvl + 1) && #[trigger] cov[j2 * block_size(
                                lvl + 1,
                            )] == lvl + 1 && le[0] == entry_at(mem, lvl + 1, j2);
                        lemma_entry_at_ranges(mem, lvl + 1, j2);
                        assert(rem[0] == le[0]);
                        assert(rem[0].address_low as int == j2 * 4 * bsp);
                        assert(j2 * 4 * bsp != j * es);
                        assert(rem[0].address_low as int != j * es);
                    } else {
                        lemma_mp_from_first(mem, cov, lvl + 2);
                        assert(rem[0] == mp_from(mem, cov, lvl + 2)[0]);
                        let (l2, j2) = choose|l2: int, j2: int|
                            lvl + 2 <= l2 <= 3 && 0 <= j2 < level_width(l2) && #[trigger] cov[j2
                                * block_size(l2)] == l2 && mp_from(mem, cov, lvl + 2)[0]
                                == entry_at(mem, l2, j2);
                        lemma_entry_at_ranges(mem, l2, j2);
                        assert(rem[0].address_high as int - rem[0].address_low as int == 4
                            * block_size(l2) - 1);
                        assert(4 * block_size(l2) != es);
                        assert(!(rem[0].address_low as int == j * es && rem[0].address_high as int
                            == j * es + es - 1));
                    }
                }
                assert(step.0 is None);
                assert(step.1 == rem);
            }
        }
        // stitch the parent slot onto the tail of the level
        lemma_bubble_from_coverage(mem, cov, lvl, j + 1);
        let rest = spec_bubble_level(level, step.1, j + 1);
        assert(b.0 == seq![step.0] + rest.0);
        assert(rest.0 == level_view(mem, cov, lvl + 1).skip(j + 1));
        assert(step.0 == slot_j);
        assert(b.0 =~= level_view(mem, cov, lvl + 1).skip(j));
        assert(b.1 == rest.1);
    }
}

/// A cache and a multiproof exactly following a well-formed coverage yield
/// the true root when every leaf is covered, and an incompleteness signal
/// when any leaf is covered by neither source — never a partially-derived
/// root.
pub proof fn lemma_coverage_root(mem: Seq<Seq<u8>>, cov: Seq<int>)
    requires
        mem.len() == N_LEAVES,
        wf_cov(cov),
    ensures
        spec_root(cache_from(mem, cov, 0), mp_from(mem, cov, 0)) == (if forall|i: int|
            0 <= i < 8 ==> #[trigger] cov[i] <= 3 {
            Some(true_node(mem, 3, 0))
        } else {
            None::<Seq<u8>>
        }),
{
    let cache = cache_from(mem, cov, 0);
    let mp = mp_from(mem, cov, 0);
    assert(mp == level_entries(mem, cov, 0, 0) + mp_from(mem, cov, 1));
    lemma_build_from_coverage(mem, cov, 0);
    let built = spec_build_leaves(cache, mp, 0);
    assert(built.0 == level_view(mem, cov, 0).skip(0));
    assert(level_view(mem, cov, 0).skip(0) =~= level_view(mem, cov, 0));
    assert(built.2 == mp_from(mem, cov, 1));
    assert(mp_from(mem, cov, 1) == level_entries(mem, cov, 1, 0) + mp_from(mem, cov, 2));
    lemma_bubble_from_coverage(mem, cov, 0, 0);
    let b0 = spec_bubble_level(level_view(mem, cov, 0), mp_from(mem, cov, 1), 0);
    assert(b0.0 == level_view(mem, cov, 1).skip(0));
    assert(level_view(mem, cov, 1).skip(0) =~= level_view(mem, cov, 1));
    assert(b0.1 == mp_from(mem, cov, 2));
    assert(mp_from(mem, cov, 2) == level_entries(mem, cov, 2, 0) + mp_from(mem, cov, 3));
    lemma_bubble_from_coverage(mem, cov, 1, 0);
    let b1 = spec_bubble_level(level_view(mem, cov, 1), mp_from(mem, cov, 2), 0);
    assert(b1.0 == level_view(mem, cov, 2).skip(0));
    assert(level_view(mem, cov, 2).skip(0) =~= level_view(mem, cov, 2));
    assert(b1.1 == mp_from(mem, cov, 3));
    assert(mp_from(mem, cov, 3) == level_entries(mem, cov, 3, 0) + mp_from(mem, cov, 4));
    lemma_bubble_from_coverage(mem, cov, 2, 0);
    let b2 = spec_bubble_level(level_view(mem, cov, 2), mp_from(mem, cov, 3), 0);
    assert(b2.0 == level_view(mem, cov, 3).skip(0));
    assert(level_view(mem, cov, 3).skip(0) =~= level_view(mem, cov, 3));
    assert(b2.1 == mp_from(mem, cov, 4));
    assert(level_view(mem, cov, 3).len() == 1);
    assert(spec_reduce(level_view(mem, cov, 3), mp_from(mem, cov, 4)).0 == level_view(
        mem,
        cov,
        3,
    )[0]);
    assert(built.0 == level_view(mem, cov, 0));
    assert(spec_root(cache, mp) == spec_reduce(level_view(mem, cov, 0), mp_from(mem, cov, 1)).0);
    assert(level_view(mem, cov, 0).len() == 8);
    assert(spec_reduce(level_view(mem, cov, 0), mp_from(mem, cov, 1)) == spec_reduce(b0.0, b0.1));
    assert(b0.0 == level_view(mem, cov, 1));
    assert(level_view(mem, cov, 1).len() == 4);
    assert(spec_reduce(level_view(mem, cov, 1), mp_from(mem, cov, 2)) == spec_reduce(b1.0, b1.1));
    assert(b1.0 == level_view(mem, cov, 2));
    assert(level_view(mem, cov, 2).len() == 2);
    assert(spec_reduce(level_view(mem, cov, 2), mp_from(mem, cov, 3)) == spec_reduce(b2.0, b2.1));
    assert(b2.0 == level_view(mem, cov, 3));
    assert(spec_root(cache, mp) == level_view(mem, cov, 3)[0]);
    if slot_known(cov, 3, 0) {
        assert(forall|i: int| 0 <= i < 8 ==> #[trigger] cov[i] <= 3) by {
            assert(forall|i: int| 0 * 8 <= i < 1 * 8 ==> #[trigger] cov[i] <= 3);
        }
    } else {
        let i0 = choose|i0: int| 0 * 8 <= i0 < 1 * 8 && #[trigger] cov[i0] > 3;
        assert(0 <= i0 < 8 && cov[i0] > 3);
    }
}

/// Under exact coverage with no gap — a partial cache plus multiproof
/// entries exactly complementing the missing ranges, at any mix of levels —
/// the reconstruction reproduces the root of the full tree.
pub proof fn lemma_mixed_coverage_reproduces_root(mem: Seq<Seq<u8>>, cov: Seq<int>)
    requires
        mem.len() == N_LEAVES,
        wf_cov(cov),
        forall|i: int| 0 <= i < 8 ==> #[trigger] cov[i] <= 3,
    ensures
        spec_root(cache_from(mem, cov, 0), mp_from(mem, cov, 0)) == Some(true_node(mem, 3, 0)),
{
    lemma_coverage_root(mem, cov);
}

/// If any tree range at any level is absent from both sources, the
/// reconstruction fails with the incompleteness signal: it never returns a
/// partially-derived root.
pub proof fn lemma_gap_detected(mem: Seq<Seq<u8>>, cov: Seq<int>)
    requires
        mem.len() == N_LEAVES,
        wf_cov(cov),
        exists|i: int| 0 <= i < 8 && #[trigger] cov[i] == 4,
    ensures
        spec_root(cache_from(mem, cov, 0), mp_from(mem, cov, 0)) is None,
{
    lemma_coverage_root(mem, cov);
    let i0 = choose|i0: int| 0 <= i0 < 8 && #[trigger] cov[i0] == 4;
    assert(!(forall|i: int| 0 <= i < 8 ==> #[trigger] cov[i] <= 3)) by {
        assert(cov[i0] > 3);
    }
}

/// The cache holding every page of the region, in ascending address order.
pub open spec fn full_cache(mem: Seq<Seq<u8>>) -> Seq<PageV> {
    Seq::new(8, |i: int| PageV { address: (i * PAGE_SIZE) as u64, data: mem[i] })
}

/// The multiproof holding every leaf hash, in ascending address order.
pub open spec fn full_leaf_entries(mem: Seq<Seq<u8>>) -> Seq<EntryV> {
    Seq::new(
        8,
        |i: int|
            EntryV {
                address_low: (i * PAGE_SIZE) as u64,
                address_high: (i * PAGE_SIZE) as u64,
                hash: keccak256(mem[i]),
            },
    )
}

/// Under a coverage that never assigns a level, no level has entries.
proof fn lemma_level_entries_none(mem: Seq<Seq<u8>>, cov: Seq<int>, lvl: int, j: int)
    requires
        0 <= lvl <= 3,
        0 <= j,
        cov.len() == 8,
        forall|k: int| 0 <= k < 8 ==> #[trigger] cov[k] != lvl,
    ensures
        level_entries(mem, cov, lvl, j) == Seq::<EntryV>::empty(),
    decreases level_width(lvl) - j,
{
    if j < level_width(lvl) {
        if lvl == 0 {
            assert(0 <= j * 1 < 8);
        } else if lvl == 1 {
            assert(0 <= j * 2 < 8);
        } else if lvl == 2 {
            assert(0 <= j * 4 < 8);
        } else {
            assert(0 <= j * 8 < 8);
        }
        lemma_level_entries_none(mem, cov, lvl, j + 1);
    }
}

/// All-cache case: with every leaf address present in the cache and an empty
/// multiproof, the result is the root obtained by hashing leaf pairs
/// bottom-up over the full page data.
pub proof fn lemma_all_cache(mem: Seq<Seq<u8>>)
    requires
        mem.len() == N_LEAVES,
    ensures
        spec_root(full_cache(mem), Seq::<EntryV>::empty()) == Some(true_node(mem, 3, 0)),
{
    let cov = Seq::new(8, |i: int| -1);
    assert(wf_cov(cov));
    assert(forall|i: int| 0 <= i < 8 ==> #[trigger] cov[i] <= 3);
    assert forall|i: int| 0 <= i <= 8 implies cache_from(mem, cov, i) =~= full_cache(
        mem,
    ).skip(i) by {
        lemma_cache_from_full(mem, cov, i);
    }
    assert(cache_from(mem, cov, 0) =~= full_cache(mem));
    assert forall|lvl: int| 0 <= lvl <= 3 implies level_entries(mem, cov, lvl, 0) == Seq::<
        EntryV,
    >::empty() by {
        lemma_level_entries_none(mem, cov, lvl, 0);
    }
    assert(mp_from(mem, cov, 4) == Seq::<EntryV>::empty());
    assert(mp_from(mem, cov, 3) =~= Seq::<EntryV>::empty());
    assert(mp_from(mem, cov, 2) =~= Seq::<EntryV>::empty());
    assert(mp_from(mem, cov, 1) =~= Seq::<EntryV>::empty());
    assert(mp_from(mem, cov, 0) =~= Seq::<EntryV>::empty());
    lemma_coverage_root(mem, cov);
}

/// Every page of the region stands in the coverage-described cache when
/// every leaf is marked as cached.
proof fn lemma_cache_from_full(mem: Seq<Seq<u8>>, cov: Seq<int>, i: int)
    requires
        0 <= i <= 8,
        cov.len() == 8,
        forall|k: int| 0 <= k < 8 ==> #[trigger] cov[k] == -1,
    ensures
        cache_from(mem, cov, i) =~= full_cache(mem).skip(i),
    decreases 8 - i,
{
    if i < 8 {
        lemma_cache_from_full(mem, cov, i + 1);
    }
}

/// Every leaf hash stands in the coverage-described multiproof when every
/// leaf is marked as a level-0 entry.
proof fn lemma_level_entries_full(mem: Seq<Seq<u8>>, cov: Seq<int>, i: int)
    requires
        0 <= i <= 8,
        cov.len() == 8,
        forall|k: int| 0 <= k < 8 ==> #[trigger] cov[k] == 0,
    ensures
        level_entries(mem, cov, 0, i) =~= full_leaf_entries(mem).skip(i),
    decreases 8 - i,
{
    if i < 8 {
        lemma_level_entries_full(mem, cov, i + 1);
        assert(entry_at(mem, 0, i) == full_leaf_entries(mem)[i]);
    }
}

/// All-multiproof case: supplying every leaf hash as multiproof entries
/// instead of cache pages yields the identical root — cache and multiproof
/// are interchangeable per-leaf data sources.
pub proof fn lemma_all_multiproof(mem: Seq<Seq<u8>>)
    requires
        mem.len() == N_LEAVES,
    ensures
        spec_root(Seq::<PageV>::empty(), full_leaf_entries(mem)) == Some(true_node(mem, 3, 0)),
        spec_root(Seq::<PageV>::empty(), full_leaf_entries(mem)) == spec_root(
            full_cache(mem),
            Seq::<EntryV>::empty(),
        ),
{
    let cov = Seq::new(8, |i: int| 0);
    assert(wf_cov(cov)) by {
        assert forall|i: int, i2: int|
            0 <= i < 8 && 0 <= i2 < 8 && 0 <= #[trigger] cov[i] <= 3 && i2 / block_size(cov[i]) == i
                / block_size(cov[i]) implies #[trigger] cov[i2] == cov[i] by {
            assert(cov[i] == 0 && cov[i2] == 0);
        }
    }
    assert(forall|i: int| 0 <= i < 8 ==> #[trigger] cov[i] <= 3);
    assert(cache_from(mem, cov, 8) =~= Seq::<PageV>::empty());
    assert forall|i: int| 0 <= i <= 8 implies cache_from(mem, cov, i) =~= Seq::<
        PageV,
    >::empty() by {
        lemma_cache_from_none(mem, cov, i);
    }
    lemma_level_entries_full(mem, cov, 0);
    assert(full_leaf_entries(mem).skip(0) =~= full_leaf_entries(mem));
    assert forall|lvl: int| 1 <= lvl <= 3 implies level_entries(mem, cov, lvl, 0) == Seq::<
        EntryV,
    >::empty() by {
        lemma_level_entries_none(mem, cov, lvl, 0);
    }
    assert(mp_from(mem, cov, 4) == Seq::<EntryV>::empty());
    assert(mp_from(mem, cov, 3) =~= Seq::<EntryV>::empty());
    assert(mp_from(mem, cov, 2) =~= Seq::<EntryV>::empty());
    assert(mp_from(mem, cov, 1) =~= Seq::<EntryV>::empty());
    assert(mp_from(mem, cov, 0) =~= full_leaf_entries(mem));
    lemma_coverage_root(mem, cov);
    lemma_all_cache(mem);
}

/// A coverage that marks no leaf as cached describes an empty cache.
proof fn lemma_cache_from_none(mem: Seq<Seq<u8>>, cov: Seq<int>, i: int)
    requires
        0 <= i <= 8,
        cov.len() == 8,
        forall|k: int| 0 <= k < 8 ==> #[trigger] cov[k] != -1,
    ensures
        cache_from(mem, cov, i) =~= Seq::<PageV>::empty(),
    decreases 8 - i,
{
    if i < 8 {
        lemma_cache_from_none(mem, cov, i + 1);
    }
}

/// Order sensitivity: for any two distinct child hashes of equal width, the
/// two concatenation orders feed distinct inputs to the merge, so the merged
/// value is the digest of a different message when "left" and "right" are
/// swapped.
pub proof fn lemma_merge_order_sensitive(l: Seq<u8>, r: Seq<u8>)
    requires
        l.len() == r.len(),
        l != r,
    ensures
        l + r != r + l,
{
    if l + r == r + l {
        assert(l =~= r) by {
            assert forall|idx: int| 0 <= idx < l.len() implies l[idx] == r[idx] by {
                assert((l + r)[idx] == l[idx]);
                assert((r + l)[idx] == r[idx]);
            }
        }
    }
}

/// Determinism: the reconstruction is a pure function of the two input
/// sequences, so equivalent, unconsumed input sets yield identical output.
pub proof fn lemma_deterministic(
    cache1: Seq<PageV>,
    mp1: Seq<EntryV>,
    cache2: Seq<PageV>,
    mp2: Seq<EntryV>,
)
    requires
        cache1 == cache2,
        mp1 == mp2,
    ensures
        spec_root(cache1, mp1) == spec_root(cache2, mp2),
{
}

} // verus!
