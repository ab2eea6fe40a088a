use hope::crypto::HopeKeyPair;
use hope::eku::{Eku, EkuHeader, EkuType};
use hope::merkle::{BatchSigner, BATCH_SIZE};
use sha2::{Digest, Sha256};

fn make_signed_eku(kp: &HopeKeyPair, seq: u64, prev_hash: [u8; 32]) -> Eku {
    let sender: [u8; 16] = *b"INTEG-SENDER-001";
    let chain: [u8; 16] = *b"INTEG-CHAIN-0001";
    let header = EkuHeader::with_prev_hash(EkuType::Execute, 0x01, sender, seq, chain, 8, prev_hash);
    let mut eku = Eku::new(header, format!("payload-{}", seq).into_bytes());
    kp.sign(&mut eku);
    eku
}

#[test]
fn eku_sign_verify_with_chain() {
    let kp = HopeKeyPair::generate();
    let e1 = make_signed_eku(&kp, 1, [0u8; 32]);
    assert!(e1.is_signed());
    assert!(kp.verify(&e1));

    let h1 = e1.chain_hash();
    let e2 = make_signed_eku(&kp, 2, h1);
    assert_eq!(e2.header.prev_hash, h1);
    assert!(kp.verify(&e2));
    assert!(e2.header.sequence > e1.header.sequence);
}

#[test]
fn tampered_eku_fails_verify() {
    let kp = HopeKeyPair::generate();
    let mut eku = make_signed_eku(&kp, 1, [0u8; 32]);
    assert!(kp.verify(&eku));

    eku.payload.push(0xFF);
    assert!(!kp.verify(&eku));
}

#[test]
fn merkle_batch_full_pipeline() {
    let kp = HopeKeyPair::generate();
    let mut signer = BatchSigner::new(kp);

    let mut batch = None;
    let mut prev_hash = [0u8; 32];
    for i in 0..BATCH_SIZE {
        let eku = {
            let sender: [u8; 16] = *b"BATCH-SENDER-001";
            let chain: [u8; 16] = *b"BATCH-CHAIN-0001";
            let h = EkuHeader::with_prev_hash(EkuType::Execute, 0x01, sender, i as u64, chain, 4, prev_hash);
            let e = Eku::new(h, vec![i as u8; 4]);
            prev_hash = e.chain_hash();
            e
        };
        batch = signer.push(eku);
    }

    let batch = batch.expect("BATCH_SIZE-nál auto flush kell");
    assert_eq!(batch.eku_count, BATCH_SIZE);
    assert_ne!(batch.root, [0u8; 32]);

    for i in 0..BATCH_SIZE {
        let proof = batch.tree.proof_of(i).expect("proof generálható");
        assert!(proof.verify(), "proof {} invalid", i);
    }
}

#[test]
fn merkle_proof_detects_tampering() {
    let kp = HopeKeyPair::generate();
    let mut signer = BatchSigner::new(kp);

    for i in 0..(BATCH_SIZE - 1) {
        let sender: [u8; 16] = *b"TAMPER-TEST-0001";
        let chain: [u8; 16] = *b"TAMPER-CHAIN-000";
        let h = EkuHeader::new(EkuType::Execute, 0x01, sender, i as u64, chain, 4);
        signer.push(Eku::new(h, vec![i as u8; 4]));
    }
    let batch = signer.flush().expect("flush kell");
    let mut proof = batch.tree.proof_of(0).expect("proof");

    proof.leaf[0] ^= 0xFF;
    assert!(!proof.verify(), "megrontott proof nem lehet valid");
}

#[test]
fn batch_root_chain_two_batches() {
    let kp = HopeKeyPair::generate();
    let mut signer = BatchSigner::new(kp);

    for i in 0..(BATCH_SIZE - 1) {
        let sender: [u8; 16] = *b"CHAIN-SENDER-001";
        let chain: [u8; 16] = *b"CHAIN-CHAIN-0001";
        let h = EkuHeader::new(EkuType::Execute, 0x01, sender, i as u64, chain, 4);
        signer.push(Eku::new(h, vec![i as u8; 4]));
    }
    let b1 = signer.flush().unwrap();
    assert_eq!(b1.prev_root_hash, [0u8; 32]);

    for i in 0..(BATCH_SIZE - 1) {
        let sender: [u8; 16] = *b"CHAIN-SENDER-002";
        let chain: [u8; 16] = *b"CHAIN-CHAIN-0002";
        let h = EkuHeader::new(EkuType::Execute, 0x01, sender, (BATCH_SIZE + i) as u64, chain, 4);
        signer.push(Eku::new(h, vec![i as u8; 4]));
    }
    let b2 = signer.flush().unwrap();

    let expected: [u8; 32] = Sha256::digest(&b1.root).into();
    assert_eq!(b2.prev_root_hash, expected, "Root-to-Root láncolat megszakadt");
}

#[test]
fn keypair_from_secret_is_deterministic() {
    let a = HopeKeyPair::from_secret_bytes([7u8; 32]);
    let b = HopeKeyPair::from_secret_bytes([7u8; 32]);
    assert_eq!(a.verifying_key_bytes(), b.verifying_key_bytes());
    let s1 = a.sign_message(b"spine");
    let s2 = b.sign_message(b"spine");
    assert_eq!(s1, s2);
    assert!(a.verify_message(b"spine", &s1));
    assert!(!a.verify_message(b"spinf", &s1));
    let other = HopeKeyPair::from_secret_bytes([8u8; 32]);
    assert!(!other.verify_message(b"spine", &s1));
}

#[test]
fn ed25519_rfc8032_first_vector() {
    // RFC 8032, section 7.1, TEST 1: empty message.
    let secret: [u8; 32] = [
        0x9d, 0x61, 0xb1, 0x9d, 0xef, 0xfd, 0x5a, 0x60, 0xba, 0x84, 0x4a, 0xf4, 0x92, 0xec, 0x2c, 0xc4,
        0x44, 0x49, 0xc5, 0x69, 0x7b, 0x32, 0x69, 0x19, 0x70, 0x3b, 0xac, 0x03, 0x1c, 0xae, 0x7f, 0x60,
    ];
    let public: [u8; 32] = [
        0xd7, 0x5a, 0x98, 0x01, 0x82, 0xb1, 0x0a, 0xb7, 0xd5, 0x4b, 0xfe, 0xd3, 0xc9, 0x64, 0x07, 0x3a,
        0x0e, 0xe1, 0x72, 0xf3, 0xda, 0xa6, 0x23, 0x25, 0xaf, 0x02, 0x1a, 0x68, 0xf7, 0x07, 0x51, 0x1a,
    ];
    let kp = HopeKeyPair::from_secret_bytes(secret);
    assert_eq!(kp.verifying_key_bytes(), public);
    let sig = kp.sign_message(&[]);
    assert_eq!(&sig[..4], &[0xe5, 0x56, 0x43, 0x00]);
    assert!(kp.verify_message(&[], &sig));
}
