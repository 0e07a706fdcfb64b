//! Multiproof: precomputed subtree hashes that complement the pages missing
//! from the cache, consumed through the same lookahead-then-consume protocol.

use crate::types::PageAddress;
use crate::types::ProofHash;
use vstd::prelude::*;

verus! {

/// A precomputed hash for the subtree spanning the inclusive address range
/// `address_low ..= address_high`.
pub struct MultiproofEntry {
    pub address_low: PageAddress,
    pub address_high: PageAddress,
    pub hash: ProofHash,
}

/// Mathematical model of a multiproof entry.
#[verifier::ext_equal]
pub ghost struct EntryV {
    pub address_low: PageAddress,
    pub address_high: PageAddress,
    pub hash: Seq<u8>,
}

impl View for MultiproofEntry {
    type V = EntryV;

    open spec fn view(&self) -> EntryV {
        EntryV {
            address_low: self.address_low,
            address_high: self.address_high,
            hash: self.hash@,
        }
    }
}

/// A collection of precomputed subtree hashes. The caller supplies `hashes`
/// pre-sorted in reverse of the order the reduction scan consumes them, so
/// that the next entry to consume is always the last of the vector. The view
/// is the sequence of remaining entries in consumption order.
pub struct Multiproof {
    pub hashes: Vec<MultiproofEntry>,
}

impl View for Multiproof {
    type V = Seq<EntryV>;

    open spec fn view(&self) -> Seq<EntryV> {
        self.hashes@.map_values(|e: MultiproofEntry| e@).reverse()
    }
}

impl Multiproof {
    /// Remove and return the next available entry, or `None` if the
    /// multiproof is exhausted.
    pub fn get_next(&mut self) -> (r: Option<MultiproofEntry>)
        ensures
            old(self)@.len() == 0 ==> r is None && final(self)@ == old(self)@,
            old(self)@.len() > 0 ==> {
                &&& r matches Some(e) && e@ == old(self)@[0]
                &&& final(self)@ == old(self)@.drop_first()
            },
    {
        let ghost pre = self.hashes@;
        let r = self.hashes.pop();
        proof {
            let mapped_pre = pre.map_values(|q: MultiproofEntry| q@);
            if pre.len() > 0 {
                assert(self.hashes@.map_values(|q: MultiproofEntry| q@) =~= mapped_pre.drop_last());
                assert(self@ =~= old(self)@.drop_first()) by {
                    assert forall|k: int| 0 <= k < self@.len() implies self@[k] == old(
                        self,
                    )@.drop_first()[k] by {
                        assert(self@[k] == mapped_pre.drop_last()[mapped_pre.len() - 2 - k]);
                        assert(old(self)@[k + 1] == mapped_pre[mapped_pre.len() - 2 - k]);
                    }
                }
                assert(old(self)@[0] == mapped_pre[mapped_pre.len() - 1]);
            } else {
                assert(self@ =~= old(self)@);
            }
        }
        r
    }

    /// True iff the next available entry's range equals exactly
    /// `(address_low, address_high)`. An entry offered in the wrong position
    /// is reported as non-matching, not rejected.
    pub fn has_next(&self, address_low: PageAddress, address_high: PageAddress) -> (r: bool)
        ensures
            r == (self@.len() > 0 && self@[0].address_low == address_low && self@[0].address_high
                == address_high),
    {
        if self.hashes.len() == 0 {
            false
        } else {
            let last = &self.hashes[self.hashes.len() - 1];
            let r = last.address_low == address_low && last.address_high == address_high;
            proof {
                let mapped = self.hashes@.map_values(|q: MultiproofEntry| q@);
                assert(self@[0] == mapped[mapped.len() - 1]);
            }
            r
        }
    }
}

} // verus!
