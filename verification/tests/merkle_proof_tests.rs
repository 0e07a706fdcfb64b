use merkle_proof::merkle_proof::MerkleProof;
use merkle_proof::multiproof::Multiproof;
use merkle_proof::multiproof::MultiproofEntry;
use merkle_proof::page_cache::Page;
use merkle_proof::page_cache::PageCache;
use merkle_proof::types::ProofHash;
use merkle_proof::types::PageData;

/// A page at the given leaf index (address = index * page size).
fn page(index: u64, data: PageData) -> Page {
    Page { data, address: index * 4 }
}

/// The leaf hashes of the eight pages.
fn leaf_hashes(datas: [PageData; 8]) -> [ProofHash; 8] {
    let mut hashes = [[0u8; 32]; 8];
    for i in 0..8 {
        hashes[i] = page(i as u64, datas[i]).hash();
    }
    hashes
}

/// The root obtained by hashing leaf pairs bottom-up by hand.
fn root_by_hand(datas: [PageData; 8]) -> ProofHash {
    let h = leaf_hashes(datas);
    let n0 = MerkleProof::merge_hashes(h[0], h[1]);
    let n1 = MerkleProof::merge_hashes(h[2], h[3]);
    let n2 = MerkleProof::merge_hashes(h[4], h[5]);
    let n3 = MerkleProof::merge_hashes(h[6], h[7]);
    let m0 = MerkleProof::merge_hashes(n0, n1);
    let m1 = MerkleProof::merge_hashes(n2, n3);
    MerkleProof::merge_hashes(m0, m1)
}

fn sample_datas() -> [PageData; 8] {
    [
        [0x10u8; 4],
        [0x21u8; 4],
        [0x32u8; 4],
        [0x43u8; 4],
        [0x54u8; 4],
        [0x65u8; 4],
        [0x76u8; 4],
        [0x87u8; 4],
    ]
}

#[test]
fn test_merkle_proof() {
    const EXPECTED_ROOT_HASH: [u8; 32] = [
        0xac, 0x22, 0xaa, 0x42, 0x2a, 0x1f, 0x3e, 0x1a, 0x56, 0x36, 0xc4, 0x63, 0x17, 0xd1, 0x35,
        0xd3, 0x45, 0xae, 0x03, 0xad, 0xdc, 0x64, 0xe6, 0x91, 0x85, 0x9a, 0xe6, 0xe5, 0x9b, 0x5a,
        0x69, 0xe3,
    ];

    let page_cache = PageCache::new(vec![
        Page { data: [1u8; 4], address: 0x4 },
        Page { data: [2u8; 4], address: 0xc },
        Page { data: [3u8; 4], address: 0x14 },
    ]);

    let multiproof = Multiproof {
        hashes: vec![
            MultiproofEntry { address_low: 0x18, address_high: 0x1f, hash: [0xdu8; 32] },
            MultiproofEntry { address_low: 0x10, address_high: 0x10, hash: [0xcu8; 32] },
            MultiproofEntry { address_low: 0x8, address_high: 0x8, hash: [0xbu8; 32] },
            MultiproofEntry { address_low: 0x0, address_high: 0x0, hash: [0xau8; 32] },
        ],
    };

    let mut merkle_proof = MerkleProof::new(page_cache, multiproof);
    let calculated_root = merkle_proof.calculate_root().expect("Invalid input data");
    assert_eq!(calculated_root, EXPECTED_ROOT_HASH);
}

#[test]
fn test_all_cache() {
    let datas = sample_datas();
    // hand the pages over unsorted: the cache sorts them by address
    let pages = vec![
        page(5, datas[5]),
        page(0, datas[0]),
        page(7, datas[7]),
        page(2, datas[2]),
        page(6, datas[6]),
        page(1, datas[1]),
        page(4, datas[4]),
        page(3, datas[3]),
    ];
    let page_cache = PageCache::new(pages);
    let multiproof = Multiproof { hashes: vec![] };
    let mut merkle_proof = MerkleProof::new(page_cache, multiproof);
    let root = merkle_proof.calculate_root().expect("complete input");
    assert_eq!(root, root_by_hand(datas));
}

#[test]
fn test_all_multiproof() {
    let datas = sample_datas();
    let h = leaf_hashes(datas);
    // every leaf hash as a multiproof entry, in reverse consumption order
    let mut entries = Vec::new();
    for i in (0..8u64).rev() {
        entries.push(MultiproofEntry {
            address_low: i * 4,
            address_high: i * 4,
            hash: h[i as usize],
        });
    }
    let page_cache = PageCache::new(vec![]);
    let multiproof = Multiproof { hashes: entries };
    let mut merkle_proof = MerkleProof::new(page_cache, multiproof);
    let root = merkle_proof.calculate_root().expect("complete input");
    assert_eq!(root, root_by_hand(datas));
}

#[test]
fn test_mixed_coverage() {
    let datas = sample_datas();
    let h = leaf_hashes(datas);
    // cache holds leaves 0..=3; leaves 4 and 5 come as leaf entries; the
    // subtree of leaves 6 and 7 comes as one level-1 entry
    let page_cache = PageCache::new(vec![
        page(0, datas[0]),
        page(1, datas[1]),
        page(2, datas[2]),
        page(3, datas[3]),
    ]);
    let multiproof = Multiproof {
        hashes: vec![
            MultiproofEntry {
                address_low: 0x18,
                address_high: 0x1f,
                hash: MerkleProof::merge_hashes(h[6], h[7]),
            },
            MultiproofEntry { address_low: 0x14, address_high: 0x14, hash: h[5] },
            MultiproofEntry { address_low: 0x10, address_high: 0x10, hash: h[4] },
        ],
    };
    let mut merkle_proof = MerkleProof::new(page_cache, multiproof);
    let root = merkle_proof.calculate_root().expect("complete input");
    assert_eq!(root, root_by_hand(datas));
}

#[test]
fn test_gap_is_incomplete() {
    let datas = sample_datas();
    let h = leaf_hashes(datas);
    // as in the mixed case, but leaf 5 is absent from both sources
    let page_cache = PageCache::new(vec![
        page(0, datas[0]),
        page(1, datas[1]),
        page(2, datas[2]),
        page(3, datas[3]),
    ]);
    let multiproof = Multiproof {
        hashes: vec![
            MultiproofEntry {
                address_low: 0x18,
                address_high: 0x1f,
                hash: MerkleProof::merge_hashes(h[6], h[7]),
            },
            MultiproofEntry { address_low: 0x10, address_high: 0x10, hash: h[4] },
        ],
    };
    let mut merkle_proof = MerkleProof::new(page_cache, multiproof);
    assert_eq!(merkle_proof.calculate_root(), Err(()));
}

#[test]
fn test_empty_sources_are_incomplete() {
    let page_cache = PageCache::new(vec![]);
    let multiproof = Multiproof { hashes: vec![] };
    let mut merkle_proof = MerkleProof::new(page_cache, multiproof);
    assert_eq!(merkle_proof.calculate_root(), Err(()));
}

#[test]
fn test_merge_order_sensitive() {
    let a = [0x01u8; 32];
    let b = [0x02u8; 32];
    assert_ne!(MerkleProof::merge_hashes(a, b), MerkleProof::merge_hashes(b, a));
}

#[test]
fn test_deterministic() {
    let datas = sample_datas();
    let h = leaf_hashes(datas);
    let build = || {
        let page_cache = PageCache::new(vec![
            page(0, datas[0]),
            page(1, datas[1]),
            page(2, datas[2]),
            page(3, datas[3]),
            page(6, datas[6]),
            page(7, datas[7]),
        ]);
        let multiproof = Multiproof {
            hashes: vec![
                MultiproofEntry { address_low: 0x14, address_high: 0x14, hash: h[5] },
                MultiproofEntry { address_low: 0x10, address_high: 0x10, hash: h[4] },
            ],
        };
        MerkleProof::new(page_cache, multiproof)
    };
    let first = build().calculate_root();
    let second = build().calculate_root();
    assert!(first.is_ok());
    assert_eq!(first, second);
}

#[test]
fn test_page_cache_protocol() {
    // unsorted input: the lowest remaining address is always offered first
    let mut cache = PageCache::new(vec![page(2, [7u8; 4]), page(0, [5u8; 4])]);
    assert!(cache.has_next(0x0));
    assert!(!cache.has_next(0x8));
    let first = cache.get_next().expect("two pages remain");
    assert_eq!(first.address, 0x0);
    assert_eq!(first.data, [5u8; 4]);
    assert!(cache.has_next(0x8));
    let second = cache.get_next().expect("one page remains");
    assert_eq!(second.address, 0x8);
    assert!(!cache.has_next(0x8));
    assert!(cache.get_next().is_none());
}

#[test]
fn test_multiproof_protocol() {
    // the last entry of the vector is the next to be consumed
    let mut multiproof = Multiproof {
        hashes: vec![
            MultiproofEntry { address_low: 0x18, address_high: 0x1f, hash: [2u8; 32] },
            MultiproofEntry { address_low: 0x0, address_high: 0x0, hash: [1u8; 32] },
        ],
    };
    assert!(multiproof.has_next(0x0, 0x0));
    assert!(!multiproof.has_next(0x18, 0x1f));
    let first = multiproof.get_next().expect("two entries remain");
    assert_eq!((first.address_low, first.address_high), (0x0, 0x0));
    assert_eq!(first.hash, [1u8; 32]);
    assert!(multiproof.has_next(0x18, 0x1f));
    let second = multiproof.get_next().expect("one entry remains");
    assert_eq!((second.address_low, second.address_high), (0x18, 0x1f));
    assert!(multiproof.get_next().is_none());
}

#[test]
fn test_page_hash_depends_on_data() {
    let p1 = page(0, [0x00u8; 4]);
    let p2 = page(0, [0xffu8; 4]);
    assert_ne!(p1.hash(), p2.hash());
    // the hash is a function of the data alone, not of the address
    assert_eq!(p1.hash(), page(2, [0x00u8; 4]).hash());
}
