use zkauction::exit_tree::{hash_exit_root, ExitLeaf};
use zkauction::lean_imt::LeanIncrementalMerkleTree;
use zkauction::precompiles::sp1_keccak256;
use zkauction::types::Address;

fn leaf_bytes(n: u8) -> Vec<u8> {
    let mut v = vec![0u8; 32];
    v[31] = n;
    v
}

fn pair_hash(l: &Vec<u8>, r: &Vec<u8>) -> Vec<u8> {
    let mut input = l.clone();
    input.extend_from_slice(r);
    sp1_keccak256(&input)
}

#[test]
fn test_sp1_keccak256() {
    // The Keccak-256 digest of the empty input, pinned byte for byte.
    let expected: [u8; 32] = [
        0xc5, 0xd2, 0x46, 0x01, 0x86, 0xf7, 0x23, 0x3c, 0x92, 0x7e, 0x7d, 0xb2, 0xdc, 0xc7, 0x03,
        0xc0, 0xe5, 0x00, 0xb6, 0x53, 0xca, 0x82, 0x27, 0x3b, 0x7b, 0xfa, 0xd8, 0x04, 0x5d, 0x85,
        0xa4, 0x70,
    ];
    let output = sp1_keccak256(&[]);
    assert_eq!(output.len(), 32);
    assert_eq!(output, expected.to_vec());

    let other = sp1_keccak256(&[1u8; 32]);
    assert_eq!(other.len(), 32);
    assert_ne!(other, [1u8; 32].to_vec());
    assert_ne!(other, output);
}

#[test]
fn test_initializes_empty_tree() {
    let tree = LeanIncrementalMerkleTree::new(&Vec::new());
    assert_eq!(tree.root(), vec![0u8; 32]);
    assert_eq!(tree.size(), 0);
}

#[test]
fn test_initializes_tree_with_leaves() {
    let leaves: Vec<Vec<u8>> = (1..=5).map(leaf_bytes).collect();
    let tree = LeanIncrementalMerkleTree::new(&leaves);

    let left = pair_hash(
        &pair_hash(&leaves[0], &leaves[1]),
        &pair_hash(&leaves[2], &leaves[3]),
    );
    let manual_root = pair_hash(&left, &leaves[4]);

    assert_eq!(tree.root(), manual_root);
}

#[test]
fn test_leaves() {
    let leaves: Vec<Vec<u8>> = (1..=9).map(leaf_bytes).collect();
    let tree = LeanIncrementalMerkleTree::new(&leaves);
    assert_eq!(tree.leaves(), leaves);
    assert_eq!(tree.size(), 9);
}

#[test]
fn test_index_of() {
    let leaves: Vec<Vec<u8>> = (1..=7).map(leaf_bytes).collect();
    let tree = LeanIncrementalMerkleTree::new(&leaves);
    assert_eq!(tree.index_of(&leaf_bytes(3)), Some(2));
    assert_eq!(tree.index_of(&leaf_bytes(9)), None);
}

#[test]
fn test_has() {
    let leaves: Vec<Vec<u8>> = (1..=7).map(leaf_bytes).collect();
    let tree = LeanIncrementalMerkleTree::new(&leaves);
    assert!(tree.has(&leaf_bytes(5)));
    assert!(!tree.has(&leaf_bytes(8)));
}

#[test]
fn test_generate_verify_proof() {
    for size in [1usize, 2, 3, 5, 8, 11] {
        let leaves: Vec<Vec<u8>> = (1..=size as u8).map(leaf_bytes).collect();
        let tree = LeanIncrementalMerkleTree::new(&leaves);
        for index in 0..size {
            let proof = tree.generate_proof(index).unwrap();
            assert!(tree.verify_proof(&proof));
            assert_eq!(proof.leaf, leaves[index]);
            assert_eq!(proof.root, tree.root());
        }
        assert!(tree.generate_proof(size).is_none());
    }
}

#[test]
fn test_flipped_sibling_falsifies_proof() {
    let leaves: Vec<Vec<u8>> = (1..=6).map(leaf_bytes).collect();
    let tree = LeanIncrementalMerkleTree::new(&leaves);
    let proof = tree.generate_proof(2).unwrap();
    assert!(tree.verify_proof(&proof));
    for s in 0..proof.siblings.len() {
        for bit in [0usize, 7, 130, 255] {
            let mut tampered = LeanIncrementalMerkleTree::new(&leaves).generate_proof(2).unwrap();
            tampered.siblings[s][bit / 8] ^= 1 << (bit % 8);
            assert!(!tree.verify_proof(&tampered));
        }
    }
}

#[test]
fn test_hash_exit_root() {
    let leaves: Vec<ExitLeaf> = (0..11)
        .map(|n: u32| {
            if n % 2 == 0 {
                ExitLeaf::TokenWithdrawal {
                    recipient: Address { hi: n, lo: n as u128 },
                    token: Address { hi: 7, lo: 7 },
                    amount: 1000 + n as u128,
                }
            } else {
                ExitLeaf::RepurchaseObligation {
                    debtor: Address { hi: n, lo: n as u128 },
                    repurchase_amount: 2000 + n as u128,
                    collateral_amount: 3000 + n as u128,
                }
            }
        })
        .collect();

    let leaf_hashes: Vec<Vec<u8>> = leaves.iter().map(|l| l.hash()).collect();
    let expected_tree = LeanIncrementalMerkleTree::new(&leaf_hashes);
    let expected = expected_tree.root();

    assert_eq!(hash_exit_root(&leaves), expected);
}

#[test]
fn test_exit_leaf_encodings() {
    // The packed encodings are pinned byte for byte: 72, 52 and 84 bytes.
    let recipient = Address { hi: 0x01020304, lo: 0x05060708090a0b0c0d0e0f1011121314 };
    let token = Address { hi: 0, lo: 0xff };
    let w = ExitLeaf::TokenWithdrawal { recipient, token, amount: 0x0102 };
    let enc = w.encode();
    assert_eq!(enc.len(), 72);
    assert_eq!(&enc[0..4], &[1, 2, 3, 4]);
    assert_eq!(
        &enc[4..20],
        &[5, 6, 7, 8, 9, 10, 11, 12, 13, 14, 15, 16, 17, 18, 19, 20]
    );
    assert_eq!(enc[39], 0xff);
    assert_eq!(&enc[70..72], &[1, 2]);

    let r = ExitLeaf::RepoTokenWithdrawal { recipient, amount: 5 };
    let enc = r.encode();
    assert_eq!(enc.len(), 52);
    assert_eq!(enc[51], 5);

    let o = ExitLeaf::RepurchaseObligation {
        debtor: recipient,
        repurchase_amount: 6,
        collateral_amount: 7,
    };
    let enc = o.encode();
    assert_eq!(enc.len(), 84);
    assert_eq!(enc[51], 6);
    assert_eq!(enc[83], 7);
}
