//! Root reconstruction: builds the leaf level of the Merkle tree from the
//! page cache and the multiproof, then merges sibling pairs level by level
//! until a single root slot remains.

use crate::hashing::keccak256_bytes;
use crate::hashing::spec_merge;
use crate::model::spec_bubble_level;
use crate::model::spec_build_leaves;
use crate::model::spec_leaf_step;
use crate::model::spec_pair_step;
use crate::model::spec_reduce;
use crate::model::spec_root;
use crate::model::Slot;
use crate::multiproof::EntryV;
use crate::multiproof::Multiproof;
use crate::page_cache::PageCache;
use crate::page_cache::PageV;
use crate::types::MEMORY_LOG2_SIZE;
use crate::types::MEMORY_SIZE;
use crate::types::N_LEAVES;
use crate::types::PAGE_LOG2_SIZE;
use crate::types::PageAddress;
use crate::types::ProofHash;
use crate::types::HASH_SIZE;
use crate::types::PAGE_SIZE;
use vstd::prelude::*;

verus! {

/// Model of one stored tree slot.
pub open spec fn slot_view(o: Option<ProofHash>) -> Slot {
    match o {
        Some(h) => Some(h@),
        None => None,
    }
}

/// Model of the stored tree level.
pub open spec fn tree_view(t: Seq<Option<ProofHash>>) -> Seq<Slot> {
    t.map_values(|o: Option<ProofHash>| slot_view(o))
}

/// Mathematical model of a proof in progress: the current tree level and
/// what remains of the two sources.
#[verifier::ext_equal]
pub ghost struct MerkleProofV {
    pub tree: Seq<Slot>,
    pub page_cache: Seq<PageV>,
    pub multiproof: Seq<EntryV>,
}

/// Represents a Merkle proof. Based on the given `page_cache` and
/// `multiproof`, calculates the root of the Merkle tree for the corresponding
/// memory region. The region is divided into pages, and the tree is built
/// from the bottom up: the leaves are the hashes of the pages, and each
/// internal node is the hash of the concatenation of its children's hashes.
/// A page missing from the `page_cache` is complemented by the corresponding
/// entry of the `multiproof`.
pub struct MerkleProof {
    tree: Vec<Option<ProofHash>>,
    page_cache: PageCache,
    multiproof: Multiproof,
}

impl View for MerkleProof {
    type V = MerkleProofV;

    closed spec fn view(&self) -> MerkleProofV {
        MerkleProofV {
            tree: tree_view(self.tree@),
            page_cache: self.page_cache@,
            multiproof: self.multiproof@,
        }
    }
}

impl MerkleProof {
    /// A fresh proof: an empty tree buffer and the two sources untouched.
    pub fn new(page_cache: PageCache, multiproof: Multiproof) -> (r: Self)
        ensures
            r@.tree == Seq::<Slot>::empty(),
            r@.page_cache == page_cache@,
            r@.multiproof == multiproof@,
    {
        let mut tree: Vec<Option<ProofHash>> = Vec::new();
        // reserve enough space for the widest level of the tree (the leaves)
        tree.reserve(1 << (MEMORY_LOG2_SIZE - PAGE_LOG2_SIZE));
        proof {
            assert(tree_view(tree@) =~= Seq::<Slot>::empty());
        }
        Self { tree, page_cache, multiproof }
    }

    /// The hash of an internal node: the digest of the concatenation of its
    /// two children's hashes, lower-address child first.
    pub fn merge_hashes(left: ProofHash, right: ProofHash) -> (r: ProofHash)
        ensures
            r@ == spec_merge(left@, right@),
    {
        let mut buf: Vec<u8> = Vec::with_capacity(2 * HASH_SIZE);
        proof {
            assert(buf@ =~= left@.take(0));
        }
        let mut i: usize = 0;
        while i < HASH_SIZE
            invariant
                i <= HASH_SIZE,
                buf@ == left@.take(i as int),
            decreases HASH_SIZE - i,
        {
            buf.push(left[i]);
            proof {
                assert(left@.take(i + 1) =~= left@.take(i as int).push(left@[i as int]));
            }
            i += 1;
        }
        proof {
            assert(left@.take(HASH_SIZE as int) =~= left@);
            assert(left@ + right@.take(0) =~= left@);
        }
        let mut k: usize = 0;
        while k < HASH_SIZE
            invariant
                k <= HASH_SIZE,
                buf@ == left@ + right@.take(k as int),
            decreases HASH_SIZE - k,
        {
            buf.push(right[k]);
            proof {
                assert(left@ + right@.take(k + 1) =~= (left@ + right@.take(k as int)).push(
                    right@[k as int],
                ));
            }
            k += 1;
        }
        proof {
            assert(buf@ =~= left@ + right@);
        }
        keccak256_bytes(buf.as_slice())
    }

    /// Fills the bottom level of the tree with the hashes of the pages,
    /// scanning every page address of the region in ascending order.
    fn init(&mut self)
        requires
            old(self)@.tree.len() == 0,
        ensures
            ({
                let built = spec_build_leaves(old(self)@.page_cache, old(self)@.multiproof, 0);
                &&& final(self)@.tree == built.0
                &&& final(self)@.page_cache == built.1
                &&& final(self)@.multiproof == built.2
            }),
    {
        let ghost orig_cache = self@.page_cache;
        let ghost orig_mp = self@.multiproof;
        let ghost built = spec_build_leaves(orig_cache, orig_mp, 0);
        let ghost mut i: int = 0;
        let mut page_address: PageAddress = 0;
        while page_address < MEMORY_SIZE as u64
            invariant
                0 <= i <= N_LEAVES,
                page_address == i * PAGE_SIZE,
                self@.tree.len() == i,
                built == ({
                    let rest = spec_build_leaves(self@.page_cache, self@.multiproof, i);
                    (self@.tree + rest.0, rest.1, rest.2)
                }),
            decreases MEMORY_SIZE - page_address,
        {
            let ghost cache_i = self@.page_cache;
            let ghost mp_i = self@.multiproof;
            let ghost tree_i = self@.tree;
            let ghost step = spec_leaf_step(cache_i, mp_i, page_address);
            if self.page_cache.has_next(page_address) {
                let page = self.page_cache.get_next().unwrap();
                self.tree.push(Some(page.hash()));
            } else if self.multiproof.has_next(page_address, page_address) {
                let entry = self.multiproof.get_next().unwrap();
                self.tree.push(Some(entry.hash));
            } else {
                self.tree.push(None);
            }
            proof {
                assert(self@.tree =~= tree_i.push(step.0));
                assert(self@.page_cache == step.1);
                assert(self@.multiproof == step.2);
                let rest = spec_build_leaves(step.1, step.2, i + 1);
                assert(spec_build_leaves(cache_i, mp_i, i) == (
                    seq![step.0] + rest.0,
                    rest.1,
                    rest.2,
                ));
                assert(tree_i + (seq![step.0] + rest.0) =~= tree_i.push(step.0) + rest.0);
                i = i + 1;
            }
            page_address = page_address + PAGE_SIZE as u64;
        }
        proof {
            assert(i == N_LEAVES);
            let rest = spec_build_leaves(self@.page_cache, self@.multiproof, i);
            assert(rest.0 == Seq::<Slot>::empty());
            assert(self@.tree + rest.0 =~= self@.tree);
        }
    }

    /// Moves one level up: merges the hashes of each adjacent pair of slots
    /// into the parent slot, falling back to the multiproof where a child is
    /// unknown, and halves the level.
    fn bubble_up(&mut self)
        requires
            old(self)@.tree.len() == 2 || old(self)@.tree.len() == 4 || old(self)@.tree.len() == 8,
        ensures
            ({
                let b = spec_bubble_level(old(self)@.tree, old(self)@.multiproof, 0);
                &&& final(self)@.tree == b.0
                &&& final(self)@.multiproof == b.1
                &&& final(self)@.page_cache == old(self)@.page_cache
            }),
    {
        let ghost orig_tree = self@.tree;
        let ghost orig_mp = self@.multiproof;
        let ghost goal = spec_bubble_level(orig_tree, orig_mp, 0);
        let len = self.tree.len();
        let half = len / 2;
        proof {
            assert(len == 2 || len == 4 || len == 8);
            assert(half == 1 || half == 2 || half == 4);
        }
        // the span in bytes of the memory chunk that one parent slot covers
        let entry_size = MEMORY_SIZE / half;
        proof {
            if half == 1 {
                assert(entry_size == 32);
            } else if half == 2 {
                assert(entry_size == 16) by (nonlinear_arith)
                    requires
                        entry_size == MEMORY_SIZE / half,
                        half == 2,
                        MEMORY_SIZE == 32,
                ;
            } else {
                assert(entry_size == 8) by (nonlinear_arith)
                    requires
                        entry_size == MEMORY_SIZE / half,
                        half == 4,
                        MEMORY_SIZE == 32,
                ;
            }
            assert(entry_size == (MEMORY_SIZE as int) / (len as int / 2));
            assert(entry_size * half == MEMORY_SIZE);
        }
        let mut j: usize = 0;
        while j < half
            invariant
                0 <= j <= half,
                half == orig_tree.len() / 2,
                orig_tree.len() == 2 || orig_tree.len() == 4 || orig_tree.len() == 8,
                entry_size == (MEMORY_SIZE as int) / (orig_tree.len() as int / 2),
                entry_size * half == MEMORY_SIZE,
                1 <= entry_size <= MEMORY_SIZE,
                1 <= half <= 4,
                self@.tree.len() == orig_tree.len(),
                self.tree@.len() == orig_tree.len(),
                forall|k: int| j <= k < orig_tree.len() ==> self@.tree[k] == orig_tree[k],
                self@.page_cache == old(self)@.page_cache,
                goal == ({
                    let rest = spec_bubble_level(orig_tree, self@.multiproof, j as int);
                    (self@.tree.take(j as int) + rest.0, rest.1)
                }),
            decreases half - j,
        {
            let ghost mp_j = self@.multiproof;
            let ghost tree_j = self@.tree;
            let ghost step = spec_pair_step(orig_tree, mp_j, j as int);
            let left = self.tree[2 * j];
            let right = self.tree[2 * j + 1];
            proof {
                assert(slot_view(left) == orig_tree[2 * (j as int)]);
                assert(slot_view(right) == orig_tree[2 * (j as int) + 1]);
            }
            proof {
                let jj = j as int;
                let es = entry_size as int;
                let h = half as int;
                assert(jj * es + es <= 32) by (nonlinear_arith)
                    requires
                        0 <= jj < h,
                        es * h == 32,
                        es >= 1,
                ;
            }
            if left.is_none() || right.is_none() {
                let low = (j * entry_size) as u64;
                let high = (j * entry_size + entry_size - 1) as u64;
                if self.multiproof.has_next(low, high) {
                    let entry = self.multiproof.get_next().unwrap();
                    self.tree[j] = Some(entry.hash);
                } else {
                    self.tree[j] = None;
                }
            } else {
                let merged = MerkleProof::merge_hashes(left.unwrap(), right.unwrap());
                self.tree[j] = Some(merged);
            }
            proof {
                assert(self@.tree =~= tree_j.update(j as int, step.0));
                assert(self@.multiproof == step.1);
                let rest = spec_bubble_level(orig_tree, step.1, j + 1);
                assert(spec_bubble_level(orig_tree, mp_j, j as int) == (
                    seq![step.0] + rest.0,
                    rest.1,
                ));
                assert(tree_j.take(j as int) + (seq![step.0] + rest.0) =~= self@.tree.take(j + 1)
                    + rest.0);
            }
            j += 1;
        }
        let ghost pre_trunc = self@.tree;
        self.tree.truncate(half);
        proof {
            let rest = spec_bubble_level(orig_tree, self@.multiproof, half as int);
            assert(rest.0 == Seq::<Slot>::empty());
            assert(pre_trunc.take(half as int) + rest.0 =~= pre_trunc.take(half as int));
            assert(self@.tree =~= pre_trunc.take(half as int));
        }
    }

    /// Calculates the Merkle tree root, which is the final proof. The result
    /// is exactly what the model `spec_root` assigns to the two sources:
    /// `Ok` with the reconstructed root hash, or `Err` if the data provided
    /// in `page_cache` and `multiproof` is incomplete, that is, if at some
    /// point neither source had the data for a subtree and that unknown slot
    /// bubbled up to the root. Both sources are consumed as far as the scan
    /// reaches them and are not reusable afterwards.
    pub fn calculate_root(&mut self) -> (result: Result<ProofHash, ()>)
        requires
            old(self)@.tree.len() == 0,
        ensures
            ({
                let root = spec_root(old(self)@.page_cache, old(self)@.multiproof);
                match result {
                    Ok(h) => root == Some(h@),
                    Err(_) => root is None,
                }
            }),
            ({
                let built = spec_build_leaves(old(self)@.page_cache, old(self)@.multiproof, 0);
                let reduced = spec_reduce(built.0, built.2);
                &&& final(self)@.tree.len() == 1
                &&& final(self)@.tree[0] == reduced.0
                &&& final(self)@.page_cache == built.1
                &&& final(self)@.multiproof == reduced.1
            }),
    {
        let ghost built = spec_build_leaves(old(self)@.page_cache, old(self)@.multiproof, 0);
        let ghost target = spec_reduce(built.0, built.2);
        self.init();
        proof {
            crate::model::lemma_build_leaves_len(old(self)@.page_cache, old(self)@.multiproof, 0);
        }
        while self.tree.len() > 1
            invariant
                self@.tree.len() == 1 || self@.tree.len() == 2 || self@.tree.len() == 4
                    || self@.tree.len() == 8,
                self.tree@.len() == self@.tree.len(),
                spec_reduce(self@.tree, self@.multiproof) == target,
                self@.page_cache == built.1,
            decreases self@.tree.len(),
        {
            let ghost tree_b = self@.tree;
            let ghost mp_b = self@.multiproof;
            self.bubble_up();
            proof {
                crate::model::lemma_bubble_level_len(tree_b, mp_b, 0);
            }
        }
        match self.tree[0] {
            Some(hash) => Ok(hash),
            // None means that at some point there was not enough data (in the
            // page cache or in the multiproof) to calculate a hash, and that
            // unknown slot bubbled up to the root.
            None => Err(()),
        }
    }
}

} // verus!
