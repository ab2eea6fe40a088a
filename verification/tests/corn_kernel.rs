use hope::corn_kernel::{kernel_size, pack_message, CornKernel, Z8Saturator, KERNEL_BYTES, LAYER_SIZE};

#[test]
fn empty_kernel_is_all_zero() {
    let k = CornKernel::empty();
    assert!(k.layers.iter().all(|row| row.iter().all(|&b| b == 0)));
    assert_eq!(k.active_mask, 0);
    assert_eq!(k.zoom_depth, 0);
    assert!(k.read_layer(0).is_none());
}

#[test]
fn write_layer_copies_marks_and_zooms() {
    let mut k = CornKernel::empty();
    k.write_layer(3, b"abc");
    assert_eq!(&k.layers[3][..3], b"abc");
    assert!(k.layers[3][3..].iter().all(|&b| b == 0));
    assert_eq!(k.active_mask, 0b0000_1000);
    assert_eq!(k.zoom_depth, 4);
    // A lower layer does not lower the zoom depth.
    k.write_layer(1, b"z");
    assert_eq!(k.zoom_depth, 4);
    assert_eq!(k.active_mask, 0b0000_1010);
    assert_eq!(k.read_layer(3).unwrap()[0], b'a');
    assert!(k.read_layer(2).is_none());
    assert!(k.read_layer(8).is_none());
}

#[test]
fn write_layer_truncates_to_layer_size() {
    let mut k = CornKernel::empty();
    let long = [7u8; 40];
    k.write_layer(0, &long);
    assert_eq!(k.layers[0], [7u8; LAYER_SIZE]);
    assert!(k.layers[1].iter().all(|&b| b == 0));
}

#[test]
fn flatten_keeps_only_active_layers_in_order() {
    let mut k = CornKernel::empty();
    k.write_layer(5, b"five");
    k.write_layer(2, b"two");
    let flat = k.flatten();
    assert_eq!(flat.len(), 64);
    assert_eq!(&flat[..3], b"two");
    assert_eq!(&flat[32..36], b"five");
}

#[test]
fn deep_read_covers_all_layers() {
    let mut k = CornKernel::empty();
    k.write_layer(7, b"last");
    let all = k.deep_read();
    assert_eq!(&all[224..228], b"last");
    assert!(all[..224].iter().all(|&b| b == 0));
}

#[test]
fn encoding_roundtrips() {
    let mut k = CornKernel::empty();
    k.write_layer(0, b"hello");
    k.genome_tag = 0xCAFE;
    k.seq = 0x0102_0304;
    let bytes = k.as_bytes();
    assert_eq!(bytes.len(), kernel_size());
    assert_eq!(kernel_size(), KERNEL_BYTES);
    assert_eq!(&bytes[258..260], &[0xFE, 0xCA]);
    assert_eq!(&bytes[260..264], &[0x04, 0x03, 0x02, 0x01]);
    let back = CornKernel::from_bytes(&bytes);
    assert_eq!(back.layers, k.layers);
    assert_eq!(back.active_mask, k.active_mask);
    assert_eq!(back.zoom_depth, k.zoom_depth);
    assert_eq!(back.genome_tag, 0xCAFE);
    assert_eq!(back.seq, 0x0102_0304);
}

#[test]
fn saturator_cycles_and_fills() {
    let mut sat = Z8Saturator::new(0xD0E5);
    assert!(!sat.is_full());
    for i in 0..8u8 {
        sat.saturate(&[i; 4]);
    }
    assert!(sat.is_full());
    assert_eq!(sat.seq, 8);
    assert_eq!(sat.kernel.seq, 8);
    assert_eq!(sat.kernel.genome_tag, 0xD0E5);
    // The ninth write wraps to layer 0, the tenth goes to layer 1.
    sat.saturate(b"again");
    assert_eq!(&sat.kernel.layers[0][..5], b"again");
    sat.saturate(b"more");
    assert_eq!(&sat.kernel.layers[1][..4], b"more");
    assert_eq!(sat.kernel.layers[2][0], 2);
}

#[test]
fn pack_message_chunks_by_layer() {
    let msg = vec![b'm'; 70];
    let k = pack_message(&msg);
    assert_eq!(k.zoom_depth, 3);
    assert_eq!(k.active_mask, 0b111);
    assert_eq!(k.layers[2][..6], [b'm'; 6]);
    assert!(k.layers[2][6..].iter().all(|&b| b == 0));
    let big = vec![1u8; 300];
    let k = pack_message(&big);
    assert_eq!(k.active_mask, 0xFF);
    assert_eq!(k.zoom_depth, 8);
    let none = pack_message(&[]);
    assert_eq!(none.active_mask, 0);
}

#[test]
fn saturate_message_writes_pieces_in_turn() {
    let mut sat = Z8Saturator::new(7);
    let msg: Vec<u8> = (0..70u8).collect();
    sat.saturate_message(&msg);
    assert_eq!(sat.seq, 3);
    assert_eq!(sat.kernel.seq, 3);
    assert_eq!(sat.kernel.active_mask, 0b111);
    assert_eq!(sat.kernel.zoom_depth, 3);
    assert_eq!(sat.kernel.layers[0][..], msg[0..32]);
    assert_eq!(sat.kernel.layers[1][..], msg[32..64]);
    assert_eq!(sat.kernel.layers[2][..6], msg[64..70]);
    assert!(!sat.is_full());
    assert_eq!(sat.current_layer, 3);
}

#[test]
fn saturate_message_of_eight_pieces_fills() {
    let mut sat = Z8Saturator::new(7);
    sat.saturate_message(&[9u8; 225]);
    assert!(sat.is_full());
    assert_eq!(sat.seq, 8);
    // ten pieces wrap around to layers 0 and 1 again
    let mut sat = Z8Saturator::new(7);
    let msg: Vec<u8> = (0..=255u8).chain(0..40u8).collect();
    sat.saturate_message(&msg);
    assert_eq!(sat.seq, 10);
    assert_eq!(sat.kernel.layers[0][..], msg[256..288]);
    assert_eq!(sat.kernel.layers[1][..8], msg[288..296]);
    assert_eq!(sat.kernel.layers[1][8..], msg[40..64]);
}

#[test]
fn saturate_empty_message_changes_nothing() {
    let mut sat = Z8Saturator::new(7);
    sat.saturate_message(&[]);
    assert_eq!(sat.seq, 0);
    assert_eq!(sat.kernel.active_mask, 0);
}
