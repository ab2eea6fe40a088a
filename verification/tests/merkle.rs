use hope::crypto::HopeKeyPair;
use hope::eku::{Eku, EkuHeader, EkuType};
use hope::merkle::{BatchSigner, MerkleTree, BATCH_SIZE};
use sha2::{Digest, Sha256};

fn make_eku(seq: u64) -> Eku {
    let sender: [u8; 16] = *b"MERKLE-TEST-0001";
    let chain: [u8; 16] = *b"MERKLE-CHAIN-000";
    let h = EkuHeader::new(EkuType::Execute, 0x01, sender, seq, chain, 4);
    Eku::new(h, format!("payload-{}", seq).into_bytes())
}

fn hashed_leaves(n: usize) -> Vec<[u8; 32]> {
    (0..n)
        .map(|i| {
            let mut h = Sha256::new();
            h.update(&[i as u8]);
            h.finalize().into()
        })
        .collect()
}

#[test]
fn merkle_tree_builds() {
    let leaves: Vec<[u8; 32]> = (0..4)
        .map(|i| {
            let mut h = Sha256::new();
            h.update(&[i as u8; 32]);
            h.finalize().into()
        })
        .collect();
    let tree = MerkleTree::build(leaves).unwrap();
    assert_ne!(tree.root, [0u8; 32]);
}

#[test]
fn merkle_proof_verifies() {
    let tree = MerkleTree::build(hashed_leaves(8)).unwrap();
    for i in 0..8 {
        let proof = tree.proof_of(i).unwrap();
        assert!(proof.verify(), "proof {} nem valid", i);
    }
}

#[test]
fn proof_fails_on_tampered_leaf() {
    let tree = MerkleTree::build(hashed_leaves(4)).unwrap();
    let mut proof = tree.proof_of(0).unwrap();
    proof.leaf[0] ^= 0xFF;
    assert!(!proof.verify());
}

#[test]
fn odd_leaf_count_works() {
    let tree = MerkleTree::build(hashed_leaves(5)).unwrap();
    for i in 0..5 {
        assert!(tree.proof_of(i).unwrap().verify());
    }
}

#[test]
fn batch_signer_auto_flush_at_limit() {
    let kp = HopeKeyPair::generate();
    let mut signer = BatchSigner::new(kp);
    let mut result = None;
    for i in 0..BATCH_SIZE {
        result = signer.push(make_eku(i as u64));
    }
    let batch = result.expect("BATCH_SIZE elérésénél automatikus flush");
    assert_eq!(batch.eku_count, BATCH_SIZE);
}

#[test]
fn flush_critical_partial_batch() {
    let kp = HopeKeyPair::generate();
    let mut signer = BatchSigner::new(kp);
    signer.push(make_eku(1));
    signer.push(make_eku(2));
    let batch = signer.flush().expect("partial flush működik");
    assert_eq!(batch.eku_count, 2);
    assert_eq!(signer.pending_count(), 0);
}

#[test]
fn root_to_root_chain_links() {
    let kp = HopeKeyPair::generate();
    let mut signer = BatchSigner::new(kp);
    for i in 0..(BATCH_SIZE - 1) {
        signer.push(make_eku(i as u64));
    }
    let b1 = signer.flush().unwrap();
    assert_eq!(b1.prev_root_hash, [0u8; 32]);
    for i in 0..(BATCH_SIZE - 1) {
        signer.push(make_eku((BATCH_SIZE + i) as u64));
    }
    let b2 = signer.flush().unwrap();
    let expected: [u8; 32] = Sha256::digest(&b1.root).into();
    assert_eq!(b2.prev_root_hash, expected);
}

#[test]
fn chain_tamper_detected() {
    let kp = HopeKeyPair::generate();
    let mut signer = BatchSigner::new(kp);
    for i in 0..(BATCH_SIZE - 1) {
        signer.push(make_eku(i as u64));
    }
    let b1 = signer.flush().unwrap();
    let wrong_prev = [0xFFu8; 32];
    assert!(!b1.verify_chain(&wrong_prev));
    assert!(b1.verify_chain(&[0u8; 32]));
}

#[test]
fn batch_signature_verifies() {
    let kp = HopeKeyPair::generate();
    let mut signer = BatchSigner::new(kp);
    for i in 0..4 {
        signer.push(make_eku(i as u64));
    }
    let batch = signer.flush().unwrap();
    assert!(signer.verify_batch(&batch, &[0u8; 32]));
}

#[test]
fn empty_leaves_build_nothing() {
    assert!(MerkleTree::build(Vec::new()).is_none());
}

#[test]
fn single_leaf_is_its_own_root() {
    let leaves = hashed_leaves(1);
    let tree = MerkleTree::build(leaves.clone()).unwrap();
    assert_eq!(tree.root, leaves[0]);
    let p = tree.proof_of(0).unwrap();
    assert!(p.siblings.is_empty());
    assert!(p.verify());
    assert!(tree.proof_of(1).is_none());
}

#[test]
fn root_of_three_pairs_last_with_itself() {
    let l = hashed_leaves(3);
    let pair = |a: &[u8; 32], b: &[u8; 32]| -> [u8; 32] {
        let mut h = Sha256::new();
        h.update(a);
        h.update(b);
        h.finalize().into()
    };
    let left = pair(&l[0], &l[1]);
    let right = pair(&l[2], &l[2]);
    let root = pair(&left, &right);
    let tree = MerkleTree::build(l.clone()).unwrap();
    assert_eq!(tree.root, root);
    let p = tree.proof_of(2).unwrap();
    assert_eq!(p.siblings, vec![l[2], left]);
    assert_eq!(p.is_right, vec![false, true]);
}

#[test]
fn proof_with_wrong_root_fails() {
    let tree = MerkleTree::build(hashed_leaves(6)).unwrap();
    let mut p = tree.proof_of(3).unwrap();
    assert!(p.verify());
    p.root[31] ^= 1;
    assert!(!p.verify());
}

#[test]
fn batch_leaves_are_chain_hashes() {
    let kp = HopeKeyPair::from_secret_bytes([42u8; 32]);
    let mut signer = BatchSigner::new(kp);
    let e0 = make_eku(0);
    let e1 = make_eku(1);
    let h0 = e0.chain_hash();
    let h1 = e1.chain_hash();
    signer.push(e0);
    signer.push(e1);
    let b = signer.flush().unwrap();
    assert_eq!(b.tree.leaves, vec![h0, h1]);
    assert_eq!(b.root, b.tree.root);
    assert_eq!(b.batch_seq, 0);
    assert!(signer.flush().is_none());
    signer.push(make_eku(2));
    let b2 = signer.flush().unwrap();
    assert_eq!(b2.batch_seq, 1);
    assert!(signer.verify_batch(&b2, &b2.prev_root_hash));
    assert!(!signer.verify_batch(&b2, &[0u8; 32]));
}

#[test]
fn batch_from_other_signer_is_refused() {
    let mut a = BatchSigner::new(HopeKeyPair::from_secret_bytes([1u8; 32]));
    let b = BatchSigner::new(HopeKeyPair::from_secret_bytes([2u8; 32]));
    a.push(make_eku(0));
    let batch = a.flush().unwrap();
    assert!(a.verify_batch(&batch, &[0u8; 32]));
    assert!(!b.verify_batch(&batch, &[0u8; 32]));
}

#[test]
fn batches_keep_every_eku_in_order_and_chain() {
    let kp = HopeKeyPair::generate();
    let mut signer = BatchSigner::new(kp);
    let mut expected: Vec<[u8; 32]> = Vec::new();
    let mut batches = Vec::new();
    for i in 0..75u64 {
        let e = make_eku(i);
        expected.push(e.chain_hash());
        if let Some(b) = signer.push(e) {
            batches.push(b);
        }
        if i == 40 || i == 41 {
            // two flushes in the middle: nine waiting, then just one
            if let Some(b) = signer.flush() {
                batches.push(b);
            }
        }
    }
    if let Some(b) = signer.flush() {
        batches.push(b);
    }
    assert_eq!(signer.pending_count(), 0);
    let leaves: Vec<[u8; 32]> = batches.iter().flat_map(|b| b.tree.leaves.iter().copied()).collect();
    assert_eq!(leaves, expected);
    let mut prev = [0u8; 32];
    for (j, b) in batches.iter().enumerate() {
        assert_eq!(b.batch_seq, j as u64);
        assert_eq!(b.prev_root_hash, prev);
        assert!(signer.verify_batch(b, &prev));
        prev = Sha256::digest(&b.root).into();
    }
    let sizes: Vec<usize> = batches.iter().map(|b| b.eku_count).collect();
    assert_eq!(sizes, vec![BATCH_SIZE, 9, 1, BATCH_SIZE, 1]);
    // a flush with nothing waiting seals nothing
    assert!(signer.flush().is_none());
}
