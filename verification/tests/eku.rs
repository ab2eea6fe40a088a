use hope::eku::{Eku, EkuHeader, EkuType, HEADER_BYTES};
use sha2::{Digest, Sha256};

fn make_eku(seq: u64, prev: [u8; 32]) -> Eku {
    let sender: [u8; 16] = *b"TEST-SENDER-0001";
    let chain: [u8; 16] = *b"TEST-CHAIN-00000";
    let h = EkuHeader::with_prev_hash(EkuType::Execute, 0x01, sender, seq, chain, 4, prev);
    Eku::new(h, b"test".to_vec())
}

#[test]
fn chain_hash_changes_with_content() {
    let e1 = make_eku(1, [0u8; 32]);
    let e2 = make_eku(2, [0u8; 32]);
    assert_ne!(e1.chain_hash(), e2.chain_hash());
}

#[test]
fn prev_hash_links_chain() {
    let e1 = make_eku(1, [0u8; 32]);
    let h1 = e1.chain_hash();
    let e2 = make_eku(2, h1);
    assert_eq!(e2.header.prev_hash, h1);
}

#[test]
fn sequence_monotonic() {
    let e1 = make_eku(1, [0u8; 32]);
    let e2 = make_eku(2, e1.chain_hash());
    assert!(e2.header.sequence > e1.header.sequence);
}

#[test]
fn header_layout_is_fixed() {
    let h = EkuHeader::with_timestamp(
        EkuType::Birth,
        0x07,
        *b"ABCDEFGHIJKLMNOP",
        0x1122_3344_5566_7788,
        *b"qrstuvwxyz012345",
        0xAABB_CCDD,
        [9u8; 32],
        0x0102_0304_0506_0708,
    );
    let b = h.header_bytes();
    assert_eq!(b.len(), HEADER_BYTES);
    assert_eq!(&b[..4], &[0x01, 0x04, 0x07, 0x00]);
    assert_eq!(&b[4..8], &[0, 0, 0, 0]);
    assert_eq!(&b[8..16], &[0x08, 0x07, 0x06, 0x05, 0x04, 0x03, 0x02, 0x01]);
    assert_eq!(&b[16..32], b"ABCDEFGHIJKLMNOP");
    assert_eq!(&b[32..40], &[0x88, 0x77, 0x66, 0x55, 0x44, 0x33, 0x22, 0x11]);
    assert_eq!(&b[40..56], b"qrstuvwxyz012345");
    assert_eq!(&b[56..60], &[0xDD, 0xCC, 0xBB, 0xAA]);
    assert_eq!(&b[60..64], &[0, 0, 0, 0]);
    assert_eq!(&b[64..96], &[9u8; 32]);
}

#[test]
fn type_codes() {
    assert_eq!(EkuType::Query.code(), 0x01);
    assert_eq!(EkuType::Execute.code(), 0x02);
    assert_eq!(EkuType::Sync.code(), 0x03);
    assert_eq!(EkuType::Birth.code(), 0x04);
}

#[test]
fn unsigned_until_a_byte_is_set() {
    let mut e = make_eku(1, [0u8; 32]);
    assert!(!e.is_signed());
    e.signature[63] = 1;
    assert!(e.is_signed());
}

#[test]
fn to_bytes_is_header_payload_signature() {
    let mut e = make_eku(3, [1u8; 32]);
    e.signature = [5u8; 64];
    let b = e.to_bytes();
    assert_eq!(b.len(), 96 + 4 + 64);
    assert_eq!(&b[..96], e.header.header_bytes().as_slice());
    assert_eq!(&b[96..100], b"test");
    assert_eq!(&b[100..], &[5u8; 64][..]);
    let expected: [u8; 32] = Sha256::digest(&b).into();
    assert_eq!(e.chain_hash(), expected);
}

#[test]
fn new_header_starts_a_chain() {
    let h = EkuHeader::new(EkuType::Query, 0, [0u8; 16], 1, [0u8; 16], 0);
    assert_eq!(h.prev_hash, [0u8; 32]);
    assert_eq!(h.version, 1);
    assert_eq!(h.eku_type, 1);
}
