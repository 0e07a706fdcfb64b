//! Cache of known memory pages, consumed lowest-remaining-address-first
//! through a lookahead-then-consume protocol.

use crate::hashing::keccak256;
use crate::hashing::keccak256_bytes;
use crate::types::PageAddress;
use crate::types::PageData;
use crate::types::ProofHash;
use vstd::multiset::Multiset;
use vstd::prelude::*;

verus! {

/// A memory page.
pub struct Page {
    pub data: PageData,
    pub address: PageAddress,
}

/// Mathematical model of a page: its address and its bytes.
#[verifier::ext_equal]
pub ghost struct PageV {
    pub address: PageAddress,
    pub data: Seq<u8>,
}

impl View for Page {
    type V = PageV;

    open spec fn view(&self) -> PageV {
        PageV { address: self.address, data: self.data@ }
    }
}

impl Page {
    /// The hash of a page is the digest of its raw bytes.
    pub fn hash(&self) -> (r: ProofHash)
        ensures
            r@ == keccak256(self.data@),
    {
        keccak256_bytes(self.data.as_slice())
    }
}

/// The pages of a sequence stand in ascending address order.
pub open spec fn sorted_ascending(s: Seq<PageV>) -> bool {
    forall|i: int, j: int|
        0 <= i <= j < s.len() ==> #[trigger] s[i].address <= #[trigger] s[j].address
}

/// The pages of a sequence stand in descending address order.
spec fn sorted_descending(s: Seq<Page>) -> bool {
    forall|i: int, j: int|
        0 <= i <= j < s.len() ==> #[trigger] s[i]@.address >= #[trigger] s[j]@.address
}

/// A collection of memory pages. Its view is the sequence of remaining pages
/// in consumption order: ascending address, lowest remaining address first.
pub struct PageCache {
    pages: Vec<Page>,
}

impl View for PageCache {
    type V = Seq<PageV>;

    closed spec fn view(&self) -> Seq<PageV> {
        self.pages@.map_values(|p: Page| p@).reverse()
    }
}

/// Inserting an element anywhere in a sequence adds it to the multiset of the
/// sequence's elements.
proof fn lemma_insert_to_multiset<A>(s: Seq<A>, i: int, a: A)
    requires
        0 <= i <= s.len(),
    ensures
        s.insert(i, a).to_multiset() =~= s.to_multiset().insert(a),
{
    broadcast use vstd::seq_lib::group_to_multiset_ensures;

    let prefix = s.subrange(0, i);
    let suffix = s.subrange(i, s.len() as int);
    assert(s.insert(i, a) == prefix.push(a) + suffix);
    vstd::seq_lib::lemma_multiset_commutative(prefix.push(a), suffix);
    assert(s =~= prefix + suffix);
    vstd::seq_lib::lemma_multiset_commutative(prefix, suffix);
}

impl PageCache {
    /// Create a new page cache with the given pages, sorted so that the page
    /// with the lowest address is always the next to be consumed. The result
    /// holds exactly the given pages, in ascending address order.
    pub fn new(pages: Vec<Page>) -> (r: Self)
        ensures
            sorted_ascending(r@),
            r@.to_multiset() == pages@.map_values(|p: Page| p@).to_multiset(),
    {
        proof {
            broadcast use vstd::seq_lib::group_to_multiset_ensures;
        }
        let ghost orig = pages@.map_values(|p: Page| p@);
        let mut input = pages;
        let mut sorted: Vec<Page> = Vec::new();
        while input.len() > 0
            invariant
                sorted_descending(sorted@),
                sorted@.map_values(|p: Page| p@).to_multiset().add(
                    input@.map_values(|p: Page| p@).to_multiset(),
                ) == orig.to_multiset(),
            decreases input.len(),
        {
            proof {
                broadcast use vstd::seq_lib::group_to_multiset_ensures;
            }
            let ghost input_pre = input@;
            let p = input.pop().unwrap();
            proof {
                let mapped_pre = input_pre.map_values(|q: Page| q@);
                assert(input@.map_values(|q: Page| q@) =~= mapped_pre.drop_last());
                assert(mapped_pre.drop_last() =~= mapped_pre.remove(mapped_pre.len() - 1));
                assert(mapped_pre.remove(mapped_pre.len() - 1).to_multiset() =~= mapped_pre.to_multiset().remove(
                    p@,
                ));
            }
            let mut idx: usize = 0;
            while idx < sorted.len() && sorted[idx].address > p.address
                invariant
                    idx <= sorted.len(),
                    forall|k: int| 0 <= k < idx ==> #[trigger] sorted@[k]@.address > p@.address,
                decreases sorted.len() - idx,
            {
                idx += 1;
            }
            let ghost sorted_pre = sorted@;
            sorted.insert(idx, p);
            proof {
                assert(sorted_descending(sorted@)) by {
                    assert forall|i: int, j: int| 0 <= i <= j < sorted@.len() implies #[trigger] sorted@[i]@.address
                        >= #[trigger] sorted@[j]@.address by {
                        assert(sorted@ == sorted_pre.insert(idx as int, p));
                        if i < idx {
                            assert(sorted@[i] == sorted_pre[i]);
                        } else if i == idx {
                            assert(sorted@[i] == p);
                        } else {
                            assert(sorted@[i] == sorted_pre[i - 1]);
                        }
                        if j < idx {
                            assert(sorted@[j] == sorted_pre[j]);
                        } else if j == idx {
                            assert(sorted@[j] == p);
                        } else {
                            assert(sorted@[j] == sorted_pre[j - 1]);
                        }
                        if i == idx && j > idx {
                            assert(sorted_pre[idx as int]@.address <= p@.address);
                            assert(sorted_pre[j - 1]@.address <= sorted_pre[idx as int]@.address);
                        }
                    }
                }
                let mapped_pre = sorted_pre.map_values(|q: Page| q@);
                assert(sorted@.map_values(|q: Page| q@) =~= mapped_pre.insert(idx as int, p@));
                lemma_insert_to_multiset(mapped_pre, idx as int, p@);
                assert(sorted@.map_values(|q: Page| q@).to_multiset().add(
                    input@.map_values(|q: Page| q@).to_multiset(),
                ) =~= orig.to_multiset());
            }
        }
        let r = Self { pages: sorted };
        proof {
            assert(input@.map_values(|q: Page| q@) =~= Seq::<PageV>::empty());
            assert(Seq::<PageV>::empty().to_multiset() =~= Multiset::<PageV>::empty()) by {
                broadcast use vstd::seq_lib::group_to_multiset_ensures;

                assert(Seq::<PageV>::empty().to_multiset().len() == 0);
            }
            let mapped = sorted@.map_values(|q: Page| q@);
            assert(mapped.to_multiset().add(Multiset::<PageV>::empty()) =~= mapped.to_multiset());
            mapped.lemma_reverse_to_multiset();
            assert(r@ == mapped.reverse());
            assert(sorted_ascending(r@)) by {
                assert forall|i: int, j: int| 0 <= i <= j < r@.len() implies #[trigger] r@[i].address
                    <= #[trigger] r@[j].address by {
                    assert(r@[i] == mapped[mapped.len() - 1 - i]);
                    assert(r@[j] == mapped[mapped.len() - 1 - j]);
                }
            }
        }
        r
    }

    /// Remove and return the next available page (the one with the lowest
    /// remaining address), or `None` if the cache is empty.
    pub fn get_next(&mut self) -> (r: Option<Page>)
        ensures
            old(self)@.len() == 0 ==> r is None && final(self)@ == old(self)@,
            old(self)@.len() > 0 ==> {
                &&& r matches Some(p) && p@ == old(self)@[0]
                &&& final(self)@ == old(self)@.drop_first()
            },
    {
        let ghost pre = self.pages@;
        let r = self.pages.pop();
        proof {
            let mapped_pre = pre.map_values(|q: Page| q@);
            if pre.len() > 0 {
                assert(self.pages@.map_values(|q: Page| q@) =~= mapped_pre.drop_last());
                assert(self@ =~= old(self)@.drop_first()) by {
                    assert forall|k: int| 0 <= k < self@.len() implies self@[k] == old(
                        self,
                    )@.drop_first()[k] by {
                        assert(self@[k] == mapped_pre.drop_last()[mapped_pre.len() - 2 - k]);
                        assert(old(self)@[k + 1] == mapped_pre[mapped_pre.len() - 2 - k]);
                    }
                }
                assert(old(self)@[0] == mapped_pre[mapped_pre.len() - 1]);
            } else {
                assert(self@ =~= old(self)@);
            }
        }
        r
    }

    /// True iff the next available page's address equals `address`. The cache
    /// may not hold every page; the multiproof complements the missing ones.
    pub fn has_next(&self, address: PageAddress) -> (r: bool)
        ensures
            r == (self@.len() > 0 && self@[0].address == address),
    {
        if self.pages.len() == 0 {
            false
        } else {
            let r = self.pages[self.pages.len() - 1].address == address;
            proof {
                let mapped = self.pages@.map_values(|q: Page| q@);
                assert(self@[0] == mapped[mapped.len() - 1]);
            }
            r
        }
    }
}

} // verus!
