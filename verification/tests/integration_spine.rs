use hope::corn_kernel::{CornKernel, Z8Saturator};
use hope::spine::{decode_header, kernel_at, next_number, slot_start, Spine, HEADER_SIZE, SLOT_SIZE, SPINE_SIZE};
use memmap2::MmapMut;

fn open_spine(name: &str) -> Spine {
    let id: [u8; 16] = *b"TEST-SPINE-INTEG";
    let map = MmapMut::map_anon(SPINE_SIZE).expect("anonymous map");
    Spine::attach(map, format!("test-spine-{}.bin", name), id).expect("Spine::attach failed")
}

#[test]
fn spine_write_read_roundtrip() {
    let mut spine = open_spine("roundtrip");
    let mut k = CornKernel::empty();
    k.write_layer(0, b"integration test payload!");
    k.genome_tag = 0xCAFE;

    let seq = spine.write(&k);
    let recovered = spine.read(seq).expect("read visszaad kernelt");

    assert_eq!(recovered.genome_tag, 0xCAFE);
    assert_eq!(recovered.active_mask, k.active_mask);
    assert_eq!(&recovered.layers[0][..25], b"integration test payload!");
}

#[test]
fn spine_read_validates_bytes() {
    let mut spine = open_spine("validation");
    let k = CornKernel::empty();
    let seq = spine.write(&k);
    let result = spine.read(seq);
    assert!(result.is_some());
}

#[test]
fn spine_ring_wraps_correctly() {
    let mut spine = open_spine("ring");
    let start = spine.writer_seq();

    for i in 0..70u8 {
        let mut k = CornKernel::empty();
        k.genome_tag = i as u16;
        spine.write(&k);
    }

    assert_eq!(spine.writer_seq(), start + 70);

    let last_seq = start + 69;
    assert!(spine.read(last_seq).is_some());

    let last = spine.read(last_seq).unwrap();
    assert_eq!(last.genome_tag, 69u16);
}

#[test]
fn spine_write_increments_seq() {
    let mut spine = open_spine("seq");
    let before = spine.writer_seq();
    let k = CornKernel::empty();
    let s1 = spine.write(&k);
    let s2 = spine.write(&k);
    assert_eq!(s1, before);
    assert_eq!(s2, before + 1);
    assert_eq!(spine.writer_seq(), before + 2);
}

#[test]
fn spine_z8_saturator_roundtrip() {
    let mut spine = open_spine("z8");
    let mut sat = Z8Saturator::new(0xBEEF);
    for chunk in b"teljes z8 saturator pipeline teszt!".chunks(32) {
        sat.saturate(chunk);
    }
    let seq = spine.write(&sat.kernel);
    let r = spine.read(seq).expect("z8 kernel visszaolvasható");
    assert_eq!(r.genome_tag, 0xBEEF);
    assert!(r.active_mask != 0);
}

#[test]
fn unwritten_sequence_reads_nothing() {
    let mut spine = open_spine("unwritten");
    assert!(spine.read(0).is_none());
    spine.write(&CornKernel::empty());
    assert!(spine.read(0).is_some());
    assert!(spine.read(1).is_none());
}

#[test]
fn header_carries_id_and_sequence() {
    let mut spine = open_spine("header");
    spine.write(&CornKernel::empty());
    let h = spine.header();
    assert_eq!(h.spine_id, *b"TEST-SPINE-INTEG");
    assert_eq!(h.writer_seq, 1);
    assert_eq!(h.reader_seq, 0);
    assert_eq!(spine.reader_seq(), 0);
    assert_eq!(spine.path(), "test-spine-header.bin");
}

#[test]
fn too_small_map_is_refused() {
    let map = MmapMut::map_anon(SPINE_SIZE - 1).unwrap();
    assert!(Spine::attach(map, String::new(), [0u8; 16]).is_none());
}

#[test]
fn ring_overwrites_slot_after_64_writes() {
    let mut spine = open_spine("overwrite");
    for i in 0..65u16 {
        let mut k = CornKernel::empty();
        k.genome_tag = i;
        spine.write(&k);
    }
    // Slot of 0 now holds the write numbered 64.
    assert_eq!(spine.read(0).unwrap().genome_tag, 64);
    assert_eq!(spine.read(1).unwrap().genome_tag, 1);
}

#[test]
fn spine_counter_wraps_at_the_top() {
    let mut map = MmapMut::map_anon(SPINE_SIZE).unwrap();
    map[..8].copy_from_slice(&(u64::MAX - 1).to_le_bytes());
    let mut spine = Spine::attach(map, "anon".to_string(), [3u8; 16]).unwrap();
    assert_eq!(spine.writer_seq(), u64::MAX - 1);
    let k = CornKernel::empty();
    assert_eq!(spine.write(&k), u64::MAX - 1);
    assert!(spine.read(u64::MAX - 1).is_some());
    assert_eq!(spine.write(&k), u64::MAX);
    assert_eq!(spine.writer_seq(), 0);
    // after the wrap every number counts as unwritten again
    assert!(spine.read(u64::MAX - 1).is_none());
    assert_eq!(spine.header().spine_id, [3u8; 16]);
}

#[test]
fn header_decodes_little_endian_fields() {
    let mut b = vec![0u8; 40];
    b[..8].copy_from_slice(&7u64.to_le_bytes());
    b[8..16].copy_from_slice(&3u64.to_le_bytes());
    b[16..24].copy_from_slice(&0x0102u64.to_le_bytes());
    b[24..40].copy_from_slice(b"SPINE-ID-0000001");
    let h = decode_header(&b);
    assert_eq!(h.writer_seq, 7);
    assert_eq!(h.reader_seq, 3);
    assert_eq!(h.tick, 0x0102);
    assert_eq!(&h.spine_id, b"SPINE-ID-0000001");
}

#[test]
fn slot_reading_from_given_bytes() {
    let mut k = CornKernel::empty();
    k.write_layer(1, b"slot");
    k.seq = 9;
    let bytes = k.as_bytes();
    assert!(kernel_at(5, 5, &bytes).is_none());
    assert!(kernel_at(6, 5, &bytes).is_none());
    let got = kernel_at(4, 5, &bytes).unwrap();
    assert_eq!(got.as_bytes(), bytes);
    assert_eq!(slot_start(0), HEADER_SIZE);
    assert_eq!(slot_start(65), HEADER_SIZE + SLOT_SIZE);
    assert_eq!(slot_start(63) + SLOT_SIZE, HEADER_SIZE + 64 * SLOT_SIZE);
    assert_eq!(next_number(4), 5);
    assert_eq!(next_number(u64::MAX), 0);
}
