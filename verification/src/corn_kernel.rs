//! The Z8 "corn kernel": eight 32-byte layers with an activity mask, and the
//! saturator that fills the layers in turn.
use vstd::prelude::*;
use crate::codec::{decode_le, encode_le, le_bytes, le_value, lemma_le_bytes_len, lemma_le_roundtrip, lemma_le_value_bound, lemma_pow256_values};

verus! {

/// Bytes in one layer.
pub const LAYER_SIZE: usize = 32;
/// Number of layers in a kernel.
pub const Z8_LAYERS: usize = 8;
/// Bytes in the encoded form of a kernel: the layers, the mask, the zoom
/// depth, the genome tag (2 bytes) and the sequence number (4 bytes).
pub const KERNEL_BYTES: usize = 264;

/// The size in bytes of an encoded `CornKernel`.
pub fn kernel_size() -> (r: usize)
    ensures
        r == KERNEL_BYTES,
{
    KERNEL_BYTES
}

#[derive(Clone, Copy, Debug)]
pub struct CornKernel {
    pub layers: [[u8; LAYER_SIZE]; Z8_LAYERS],
    pub active_mask: u8,
    pub zoom_depth: u8,
    pub genome_tag: u16,
    pub seq: u32,
}

/// Whether bit `d` of `mask` is set.
pub open spec fn bit_set(mask: u8, d: u8) -> bool {
    mask & (1u8 << d) != 0
}

/// A layer row after `data` has been copied over its first bytes: at most
/// `LAYER_SIZE` bytes of `data` are taken, the rest of the row is kept.
pub open spec fn written_row(row: Seq<u8>, data: Seq<u8>) -> Seq<u8> {
    Seq::new(
        LAYER_SIZE as nat,
        |i: int| if i < data.len() { data[i] } else { row[i] },
    )
}

/// `new` is `old` after `write_layer(d, data)`, as far as the layers, the
/// mask and the zoom depth go.
pub open spec fn layer_written(old: CornKernel, new: CornKernel, d: int, data: Seq<u8>) -> bool {
    &&& new.layers@[d]@ == written_row(old.layers@[d]@, data)
    &&& forall|e: int| 0 <= e < Z8_LAYERS && e != d ==> new.layers@[e] == old.layers@[e]
    &&& new.active_mask == old.active_mask | (1u8 << (d as u8))
    &&& new.zoom_depth == (if d + 1 > old.zoom_depth { (d + 1) as u8 } else { old.zoom_depth })
}

/// All 256 layer bytes, layer after layer.
pub open spec fn all_layer_bytes(layers: Seq<[u8; LAYER_SIZE]>) -> Seq<u8> {
    Seq::new(256, |i: int| layers[i / 32]@[i % 32])
}

/// The bytes of the active layers among the first `n`, in layer order.
pub open spec fn active_bytes(k: CornKernel, n: nat) -> Seq<u8>
    decreases n,
{
    if n == 0 {
        Seq::empty()
    } else {
        let before = active_bytes(k, (n - 1) as nat);
        if bit_set(k.active_mask, (n - 1) as u8) {
            before + k.layers@[n - 1]@
        } else {
            before
        }
    }
}

/// The encoded form of a kernel.
pub open spec fn kernel_bytes(k: CornKernel) -> Seq<u8> {
    all_layer_bytes(k.layers@) + seq![k.active_mask, k.zoom_depth] + le_bytes(k.genome_tag as nat, 2)
        + le_bytes(k.seq as nat, 4)
}

/// `k` is what the first `KERNEL_BYTES` bytes of `b` encode.
pub open spec fn decodes_to(b: Seq<u8>, k: CornKernel) -> bool {
    &&& forall|d: int, j: int|
        0 <= d < Z8_LAYERS && 0 <= j < LAYER_SIZE ==> #[trigger] k.layers@[d]@[j] == b[32 * d + j]
    &&& k.active_mask == b[256]
    &&& k.zoom_depth == b[257]
    &&& k.genome_tag as nat == le_value(b.subrange(258, 260))
    &&& k.seq as nat == le_value(b.subrange(260, 264))
}

proof fn lemma_bit_or(mask: u8, d: u8)
    requires
        d < 8,
    ensures
        bit_set(mask | (1u8 << d), d),
        forall|e: u8| e < 8 && e != d ==> bit_set(mask | (1u8 << d), e) == bit_set(mask, e),
{
    assert(((mask | (1u8 << d)) & (1u8 << d)) != 0) by (bit_vector)
        requires
            d < 8,
    ;
    assert forall|e: u8| e < 8 && e != d implies bit_set(mask | (1u8 << d), e) == bit_set(
        mask,
        e,
    ) by {
        assert((((mask | (1u8 << d)) & (1u8 << e)) != 0) == ((mask & (1u8 << e)) != 0))
            by (bit_vector)
            requires
                e < 8,
                d < 8,
                e != d,
        ;
    }
}

impl CornKernel {
    /// A kernel with every byte zero.
    pub fn empty() -> (r: Self)
        ensures
            forall|d: int, j: int|
                0 <= d < Z8_LAYERS && 0 <= j < LAYER_SIZE ==> #[trigger] r.layers@[d]@[j] == 0u8,
            r.active_mask == 0,
            r.zoom_depth == 0,
            r.genome_tag == 0,
            r.seq == 0,
    {
        let row: [u8; LAYER_SIZE] = [0u8; LAYER_SIZE];
        CornKernel {
            layers: [row, row, row, row, row, row, row, row],
            active_mask: 0,
            zoom_depth: 0,
            genome_tag: 0,
            seq: 0,
        }
    }

    /// Copies at most `LAYER_SIZE` bytes of `data` into layer `depth`, marks
    /// the layer active and raises the zoom depth to cover it.
    pub fn write_layer(&mut self, depth: usize, data: &[u8])
        requires
            depth < Z8_LAYERS,
        ensures
            layer_written(*old(self), *final(self), depth as int, data@),
            final(self).genome_tag == old(self).genome_tag,
            final(self).seq == old(self).seq,
    {
        let n = if data.len() < LAYER_SIZE {
            data.len()
        } else {
            LAYER_SIZE
        };
        let mut row: [u8; LAYER_SIZE] = self.layers[depth];
        let ghost old_row = row@;
        let mut i: usize = 0;
        while i < n
            invariant
                i <= n,
                n <= LAYER_SIZE,
                n <= data@.len(),
                n == LAYER_SIZE || n == data@.len(),
                row@.len() == LAYER_SIZE,
                forall|j: int| 0 <= j < i ==> row@[j] == data@[j],
                forall|j: int| i <= j < LAYER_SIZE ==> row@[j] == old_row[j],
            decreases n - i,
        {
            row[i] = data[i];
            i = i + 1;
        }
        assert(row@ =~= written_row(old_row, data@));
        self.layers[depth] = row;
        let bit: u8 = 1u8 << (depth as u8);
        self.active_mask = self.active_mask | bit;
        if depth + 1 > self.zoom_depth as usize {
            self.zoom_depth = (depth + 1) as u8;
        }
    }

    /// The layer at `depth`, if it is one of the eight and it is active.
    pub fn read_layer(&self, depth: usize) -> (r: Option<&[u8; LAYER_SIZE]>)
        ensures
            r is Some <==> depth < Z8_LAYERS && bit_set(self.active_mask, depth as u8),
            r matches Some(row) ==> *row == self.layers@[depth as int],
    {
        if depth < Z8_LAYERS {
            let bit: u8 = 1u8 << (depth as u8);
            if self.active_mask & bit != 0 {
                Some(&self.layers[depth])
            } else {
                None
            }
        } else {
            None
        }
    }

    /// All 256 layer bytes, active or not, layer after layer.
    pub fn deep_read(&self) -> (r: [u8; 256])
        ensures
            r@ == all_layer_bytes(self.layers@),
    {
        let mut r: [u8; 256] = [0u8; 256];
        let mut i: usize = 0;
        while i < 256
            invariant
                i <= 256,
                r@.len() == 256,
                forall|j: int| 0 <= j < i ==> r@[j] == self.layers@[j / 32]@[j % 32],
            decreases 256 - i,
        {
            r[i] = self.layers[i / 32][i % 32];
            i = i + 1;
        }
        assert(r@ =~= all_layer_bytes(self.layers@));
        r
    }

    /// The bytes of the active layers, in layer order.
    pub fn flatten(&self) -> (r: Vec<u8>)
        ensures
            r@ == active_bytes(*self, Z8_LAYERS as nat),
    {
        let mut r: Vec<u8> = Vec::new();
        let mut d: usize = 0;
        while d < Z8_LAYERS
            invariant
                d <= Z8_LAYERS,
                r@ == active_bytes(*self, d as nat),
            decreases Z8_LAYERS - d,
        {
            let bit: u8 = 1u8 << (d as u8);
            if self.active_mask & bit != 0 {
                let row: [u8; LAYER_SIZE] = self.layers[d];
                let ghost before = r@;
                let mut j: usize = 0;
                while j < LAYER_SIZE
                    invariant
                        j <= LAYER_SIZE,
                        row@.len() == LAYER_SIZE,
                        r@ == before + row@.take(j as int),
                    decreases LAYER_SIZE - j,
                {
                    r.push(row[j]);
                    proof {
                        assert(before + row@.take(j + 1) =~= (before + row@.take(j as int)).push(row@[j as int]));
                    }
                    j = j + 1;
                }
                assert(row@.take(LAYER_SIZE as int) =~= row@);
            }
            d = d + 1;
        }
        r
    }

    /// The encoded form of the kernel (`KERNEL_BYTES` bytes): the layers,
    /// the mask, the zoom depth, then the genome tag and the sequence number
    /// little-endian.
    pub fn as_bytes(&self) -> (r: Vec<u8>)
        ensures
            r@ == kernel_bytes(*self),
            r@.len() == KERNEL_BYTES,
    {
        let all = self.deep_read();
        let mut r: Vec<u8> = Vec::new();
        let mut i: usize = 0;
        while i < 256
            invariant
                i <= 256,
                all@.len() == 256,
                r@ == all@.take(i as int),
            decreases 256 - i,
        {
            r.push(all[i]);
            assert(all@.take(i + 1) =~= all@.take(i as int).push(all@[i as int]));
            i = i + 1;
        }
        assert(all@.take(256) =~= all@);
        r.push(self.active_mask);
        r.push(self.zoom_depth);
        let mut tag = encode_le(self.genome_tag as u64, 2);
        let mut seq = encode_le(self.seq as u64, 4);
        r.append(&mut tag);
        r.append(&mut seq);
        proof {
            lemma_le_bytes_len(self.genome_tag as nat, 2);
            lemma_le_bytes_len(self.seq as nat, 4);
            assert(r@ =~= kernel_bytes(*self));
        }
        r
    }

    /// Decodes a kernel from the first `KERNEL_BYTES` bytes of `b`.
    pub fn from_bytes(b: &[u8]) -> (r: Self)
        requires
            b@.len() >= KERNEL_BYTES,
        ensures
            decodes_to(b@, r),
    {
        let mut k = CornKernel::empty();
        let mut d: usize = 0;
        while d < Z8_LAYERS
            invariant
                d <= Z8_LAYERS,
                b@.len() >= KERNEL_BYTES,
                forall|e: int, j: int|
                    0 <= e < d && 0 <= j < LAYER_SIZE ==> #[trigger] k.layers@[e]@[j] == b@[32 * e + j],
            decreases Z8_LAYERS - d,
        {
            let mut row: [u8; LAYER_SIZE] = [0u8; LAYER_SIZE];
            let mut j: usize = 0;
            while j < LAYER_SIZE
                invariant
                    j <= LAYER_SIZE,
                    d < Z8_LAYERS,
                    b@.len() >= KERNEL_BYTES,
                    row@.len() == LAYER_SIZE,
                    forall|i: int| 0 <= i < j ==> row@[i] == b@[32 * d + i],
                decreases LAYER_SIZE - j,
            {
                row[j] = b[32 * d + j];
                j = j + 1;
            }
            k.layers[d] = row;
            d = d + 1;
        }
        k.active_mask = b[256];
        k.zoom_depth = b[257];
        let tag = decode_le(slice_range(b, 258, 260));
        let seq = decode_le(slice_range(b, 260, 264));
        proof {
            lemma_le_value_bound(b@.subrange(258, 260));
            lemma_le_value_bound(b@.subrange(260, 264));
            lemma_pow256_values();
        }
        k.genome_tag = tag as u16;
        k.seq = seq as u32;
        k
    }
}

/// The bytes `b[start..end]`.
pub fn slice_range(b: &[u8], start: usize, end: usize) -> (r: &[u8])
    requires
        start <= end <= b@.len(),
    ensures
        r@ == b@.subrange(start as int, end as int),
{
    vstd::slice::slice_subrange(b, start, end)
}

pub proof fn lemma_kernel_bytes_len(k: CornKernel)
    ensures
        kernel_bytes(k).len() == KERNEL_BYTES,
{
    lemma_le_bytes_len(k.genome_tag as nat, 2);
    lemma_le_bytes_len(k.seq as nat, 4);
}

/// Decoding the encoding of a kernel gives the kernel back.
pub proof fn lemma_kernel_roundtrip(k: CornKernel, r: CornKernel)
    requires
        decodes_to(kernel_bytes(k), r),
    ensures
        r == k,
{
    let b = kernel_bytes(k);
    lemma_le_bytes_len(k.genome_tag as nat, 2);
    lemma_le_bytes_len(k.seq as nat, 4);
    lemma_pow256_values();
    assert(b.subrange(258, 260) =~= le_bytes(k.genome_tag as nat, 2));
    assert(b.subrange(260, 264) =~= le_bytes(k.seq as nat, 4));
    lemma_le_roundtrip(k.genome_tag as nat, 2);
    lemma_le_roundtrip(k.seq as nat, 4);
    assert forall|d: int| 0 <= d < Z8_LAYERS implies r.layers@[d] == k.layers@[d] by {
        assert forall|j: int| 0 <= j < LAYER_SIZE implies r.layers@[d]@[j] == k.layers@[d]@[j] by {
            assert(r.layers@[d]@[j] == b[32 * d + j]);
            assert((32 * d + j) / 32 == d && (32 * d + j) % 32 == j);
        }
        assert(r.layers@[d] =~= k.layers@[d]);
    }
    assert(r.layers =~= k.layers);
}

/// Layer `d` of a message packed into a kernel: the message's bytes
/// `32 d .. 32 d + 32`, zero where the message has ended.
pub open spec fn packed_row(data: Seq<u8>, d: int) -> Seq<u8> {
    Seq::new(LAYER_SIZE as nat, |j: int| if 32 * d + j < data.len() { data[32 * d + j] } else { 0u8 })
}

/// The number of layers a message of `len` bytes fills: one per 32 bytes
/// begun, at most eight.
pub open spec fn packed_layers(len: nat) -> nat {
    if len >= 256 {
        8
    } else {
        ((len + 31) / 32) as nat
    }
}

/// Packs a message into an empty kernel, 32 bytes per layer from layer 0 on;
/// what does not fit in eight layers is left out.
pub fn pack_message(data: &[u8]) -> (r: CornKernel)
    ensures
        forall|d: int| 0 <= d < Z8_LAYERS ==> #[trigger] r.layers@[d]@ == packed_row(data@, d),
        forall|d: u8| d < 8 ==> (bit_set(r.active_mask, d) <==> (d as nat) < packed_layers(data@.len())),
        r.zoom_depth as nat == packed_layers(data@.len()),
        r.genome_tag == 0,
        r.seq == 0,
{
    let mut k = CornKernel::empty();
    let len = data.len();
    let mut d: usize = 0;
    proof {
        assert forall|e: u8| e < 8 implies !bit_set(0u8, e) by {
            assert(0u8 & (1u8 << e) == 0) by (bit_vector);
        }
    }
    while d < Z8_LAYERS && d * LAYER_SIZE < len
        invariant
            d <= Z8_LAYERS,
            len == data@.len(),
            d == 0 || (d - 1) * 32 < len,
            k.zoom_depth == d,
            k.genome_tag == 0,
            k.seq == 0,
            forall|e: int| 0 <= e < d ==> #[trigger] k.layers@[e]@ == packed_row(data@, e),
            forall|e: int, j: int|
                d <= e < Z8_LAYERS && 0 <= j < LAYER_SIZE ==> #[trigger] k.layers@[e]@[j] == 0u8,
            forall|e: u8| e < 8 ==> (bit_set(k.active_mask, e) <==> (e as int) < d),
        decreases Z8_LAYERS - d,
    {
        let start = d * LAYER_SIZE;
        let end = if start + LAYER_SIZE < len {
            start + LAYER_SIZE
        } else {
            len
        };
        let ghost old_k = k;
        k.write_layer(d, slice_range(data, start, end));
        proof {
            lemma_bit_or(old_k.active_mask, d as u8);
            assert(k.active_mask == old_k.active_mask | (1u8 << (d as u8)));
            assert forall|e: u8| e < 8 implies (bit_set(k.active_mask, e) <==> (e as int) < d + 1) by {
                if e != d as u8 {
                    assert(bit_set(k.active_mask, e) == bit_set(old_k.active_mask, e));
                }
            }
            assert(k.layers@[d as int]@ =~= packed_row(data@, d as int));
        }
        d = d + 1;
    }
    proof {
        assert forall|e: int| d <= e < Z8_LAYERS implies #[trigger] k.layers@[e]@ == packed_row(data@, e) by {
            assert(k.layers@[e]@ =~= packed_row(data@, e));
        }
    }
    k
}

/// The number of 32-byte pieces of a message of `len` bytes.
pub open spec fn chunk_count(len: nat) -> nat {
    ((len + 31) / 32) as nat
}

/// Piece `i` of a message cut into 32-byte pieces; the last may be shorter.
pub open spec fn chunk(data: Seq<u8>, i: int) -> Seq<u8> {
    data.subrange(
        32 * i,
        if 32 * i + 32 < data.len() {
            32 * i + 32
        } else {
            data.len() as int
        },
    )
}

/// Fills the layers of a kernel one after the other, wrapping after the
/// last, and counts the writes.
pub struct Z8Saturator {
    pub kernel: CornKernel,
    pub current_layer: usize,
    pub seq: u32,
}

/// One `saturate(data)` step from `old` to `new`.
pub open spec fn saturate_step(old: Z8Saturator, new: Z8Saturator, data: Seq<u8>) -> bool {
    &&& layer_written(old.kernel, new.kernel, old.next_layer() as int, data)
    &&& new.kernel.genome_tag == old.kernel.genome_tag
    &&& new.seq == old.seq + 1
    &&& new.kernel.seq == new.seq
    &&& new.next_layer() == (old.next_layer() + 1) % (Z8_LAYERS as int)
}

impl Z8Saturator {
    /// The layer that the next `saturate` writes.
    pub open spec fn next_layer(&self) -> int {
        self.current_layer as int
    }

    /// The next layer is one of the eight.
    pub open spec fn wf(&self) -> bool {
        self.current_layer < Z8_LAYERS
    }

    /// An empty kernel with the given genome tag; writing starts at layer 0.
    pub fn new(genome_tag: u16) -> (r: Self)
        ensures
            r.wf(),
            r.next_layer() == 0,
            r.seq == 0,
            r.kernel.genome_tag == genome_tag,
            r.kernel.active_mask == 0,
            r.kernel.zoom_depth == 0,
            r.kernel.seq == 0,
            forall|d: int, j: int|
                0 <= d < Z8_LAYERS && 0 <= j < LAYER_SIZE ==> #[trigger] r.kernel.layers@[d]@[j] == 0u8,
    {
        let mut k = CornKernel::empty();
        k.genome_tag = genome_tag;
        Z8Saturator { kernel: k, current_layer: 0, seq: 0 }
    }

    /// Writes `data` into the current layer, counts the write in `seq` (of
    /// the saturator and of its kernel) and moves to the next layer, after
    /// the last back to the first.
    pub fn saturate(&mut self, data: &[u8])
        requires
            old(self).wf(),
            old(self).seq < u32::MAX,
        ensures
            final(self).wf(),
            saturate_step(*old(self), *final(self), data@),
    {
        self.kernel.write_layer(self.current_layer, data);
        self.seq = self.seq + 1;
        self.kernel.seq = self.seq;
        self.current_layer = (self.current_layer + 1) % Z8_LAYERS;
    }

    /// Saturates `data` 32 bytes at a time, one write per piece (the last
    /// piece may be shorter). Eight pieces or more leave every layer active.
    pub fn saturate_message(&mut self, data: &[u8])
        requires
            old(self).wf(),
            old(self).seq + chunk_count(data@.len()) <= u32::MAX,
        ensures
            final(self).wf(),
            final(self).seq == old(self).seq + chunk_count(data@.len()),
            exists|states: Seq<Z8Saturator>|
                {
                    &&& states.len() == chunk_count(data@.len()) + 1
                    &&& states[0] == *old(self)
                    &&& states.last() == *final(self)
                    &&& forall|i: int|
                        0 <= i < chunk_count(data@.len()) ==> #[trigger] saturate_step(
                            states[i],
                            states[i + 1],
                            chunk(data@, i),
                        )
                },
            chunk_count(data@.len()) >= 8 ==> final(self).kernel.active_mask == 0xFF,
    {
        let n = data.len();
        let count = n / LAYER_SIZE + if n % LAYER_SIZE > 0 {
            1
        } else {
            0
        };
        assert(count == chunk_count(data@.len()));
        let ghost start = *self;
        let ghost mut states: Seq<Z8Saturator> = seq![*self];
        let mut k: usize = 0;
        while k < count
            invariant
                k <= count,
                count == chunk_count(data@.len()),
                n == data@.len(),
                self.wf(),
                self.seq == start.seq + k,
                start.seq + count <= u32::MAX,
                states.len() == k + 1,
                states[0] == start,
                states.last() == *self,
                forall|i: int|
                    0 <= i < k ==> #[trigger] saturate_step(states[i], states[i + 1], chunk(data@, i)),
            decreases count - k,
        {
            let lo = k * LAYER_SIZE;
            assert(lo < n) by (nonlinear_arith)
                requires
                    k < count,
                    count == (n + 31) / 32,
                    lo == k * 32,
            ;
            let hi = if n - lo > LAYER_SIZE {
                lo + LAYER_SIZE
            } else {
                n
            };
            let piece = slice_range(data, lo, hi);
            let ghost before = *self;
            self.saturate(piece);
            proof {
                assert(piece@ == chunk(data@, k as int));
                let next = states.push(*self);
                assert(next[k as int] == before);
                assert forall|i: int| 0 <= i < k + 1 implies #[trigger] saturate_step(
                    next[i],
                    next[i + 1],
                    chunk(data@, i),
                ) by {
                    if i < k {
                        assert(next[i] == states[i] && next[i + 1] == states[i + 1]);
                    }
                }
                states = next;
            }
            k = k + 1;
        }
        proof {
            if count >= 8 {
                let tail = states.subrange(count - 8, count + 1);
                let pieces = Seq::new(8, |i: int| chunk(data@, count - 8 + i));
                assert forall|i: int| 0 <= i < 8 implies saturate_step(
                    tail[i],
                    tail[i + 1],
                    #[trigger] pieces[i],
                ) by {
                    assert(tail[i] == states[count - 8 + i]);
                    assert(tail[i + 1] == states[count - 8 + i + 1]);
                    assert(saturate_step(states[count - 8 + i], states[count - 8 + i + 1], chunk(data@, count - 8 + i)));
                }
                lemma_saturate_keeps_wf(states, data@, count - 8);
                lemma_eight_saturations_fill(tail, pieces);
            }
        }
    }

    /// Whether all eight layers are active.
    pub fn is_full(&self) -> (r: bool)
        ensures
            r == (self.kernel.active_mask == 0xFF),
    {
        self.kernel.active_mask == 0xFF
    }
}

proof fn lemma_step_mask(old: Z8Saturator, new: Z8Saturator, data: Seq<u8>)
    requires
        saturate_step(old, new, data),
        old.wf(),
    ensures
        new.kernel.active_mask == old.kernel.active_mask | (1u8 << (old.current_layer as u8)),
        new.current_layer == (old.current_layer + 1) % 8,
        new.wf(),
{
}

proof fn lemma_step_at(states: Seq<Z8Saturator>, chunks: Seq<Seq<u8>>, i: int)
    requires
        states.len() == 9,
        chunks.len() == 8,
        0 <= i < 8,
        states[i].wf(),
        forall|j: int| 0 <= j < 8 ==> saturate_step(states[j], states[j + 1], #[trigger] chunks[j]),
    ensures
        states[i + 1].kernel.active_mask == states[i].kernel.active_mask | (1u8 << (
        states[i].current_layer as u8)),
        (states[i + 1].current_layer as u8) == ((states[i].current_layer as u8) + 1) % 8,
        states[i + 1].wf(),
{
    assert(saturate_step(states[i], states[i + 1], chunks[i]));
    lemma_step_mask(states[i], states[i + 1], chunks[i]);
}

proof fn lemma_saturate_keeps_wf(states: Seq<Z8Saturator>, data: Seq<u8>, k: int)
    requires
        states.len() >= 1,
        states[0].wf(),
        0 <= k < states.len(),
        forall|i: int| 0 <= i < states.len() - 1 ==> #[trigger] saturate_step(states[i], states[i + 1], chunk(data, i)),
    ensures
        states[k].wf(),
    decreases k,
{
    if k > 0 {
        lemma_saturate_keeps_wf(states, data, k - 1);
        assert(saturate_step(states[k - 1], states[k - 1 + 1], chunk(data, k - 1)));
        lemma_step_mask(states[k - 1], states[k], chunk(data, k - 1));
    }
}

/// The mask with the first `n` layers active (all eight from `n == 8` on).
pub open spec fn first_layers_mask(n: nat) -> u8 {
    if n >= 8 {
        0xFF
    } else {
        ((1u16 << (n as u16)) - 1) as u8
    }
}

proof fn lemma_mask_step(n: nat)
    ensures
        first_layers_mask(n) | (1u8 << ((n % 8) as u8)) == first_layers_mask(n + 1),
{
    if n >= 8 {
        let x: u8 = 1u8 << ((n % 8) as u8);
        assert(0xFFu8 | x == 0xFFu8) by (bit_vector);
    } else {
        let j: u16 = n as u16;
        let a: u8 = ((1u16 << j) - 1) as u8;
        let b: u8 = if n == 7 {
            0xFFu8
        } else {
            ((1u16 << (j + 1)) - 1) as u8
        };
        assert(a | (1u8 << (j as u8)) == b) by (bit_vector)
            requires
                j < 8,
                a == ((1u16 << j) - 1) as u8,
                b == if j == 7 {
                    0xFFu8
                } else {
                    ((1u16 << (j + 1)) - 1) as u8
                },
        ;
        assert((n % 8) as u8 == j as u8);
        assert(((n + 1) as nat) as u16 == j + 1);
    }
}

/// A saturator made by `new(g)` and then saturated `k` times has written
/// layer `j % 8` at its `j`-th write, counts `k` writes in itself and its
/// kernel, keeps its genome tag, and has the first `min(k, 8)` layers
/// active: it is full exactly from the eighth write on.
pub proof fn lemma_saturation_run(states: Seq<Z8Saturator>, chunks: Seq<Seq<u8>>, k: nat)
    requires
        states.len() == chunks.len() + 1,
        k <= chunks.len(),
        states[0].wf(),
        states[0].next_layer() == 0,
        states[0].seq == 0,
        states[0].kernel.active_mask == 0,
        forall|i: int| 0 <= i < chunks.len() ==> saturate_step(states[i], states[i + 1], #[trigger] chunks[i]),
    ensures
        states[k as int].wf(),
        states[k as int].next_layer() == k % 8,
        states[k as int].seq == k,
        k > 0 ==> states[k as int].kernel.seq == k,
        states[k as int].kernel.genome_tag == states[0].kernel.genome_tag,
        states[k as int].kernel.active_mask == first_layers_mask(k),
        (states[k as int].kernel.active_mask == 0xFF) <==> k >= 8,
    decreases k,
{
    if k == 0 {
        assert(first_layers_mask(0) == 0) by {
            assert(((1u16 << 0u16) - 1) as u8 == 0u8) by (bit_vector);
        }
    } else {
        let km = (k - 1) as nat;
        lemma_saturation_run(states, chunks, km);
        let i = km as int;
        assert(saturate_step(states[i], states[i + 1], chunks[i]));
        assert(states[i + 1] == states[k as int]);
        lemma_step_mask(states[i], states[i + 1], chunks[i]);
        lemma_mask_step(km);
        assert((km % 8) as u8 == states[i].current_layer as u8);
    }
    lemma_mask_full(k);
}

proof fn lemma_mask_full(n: nat)
    ensures
        (first_layers_mask(n) == 0xFF) <==> n >= 8,
{
    if n < 8 {
        let j: u16 = n as u16;
        assert(((1u16 << j) - 1) as u8 != 0xFFu8) by (bit_vector)
            requires
                j < 8,
        ;
    }
}

/// Eight successive saturations activate every layer, whatever the state
/// they start from.
pub proof fn lemma_eight_saturations_fill(states: Seq<Z8Saturator>, chunks: Seq<Seq<u8>>)
    requires
        states.len() == 9,
        chunks.len() == 8,
        states[0].wf(),
        forall|i: int| 0 <= i < 8 ==> saturate_step(states[i], states[i + 1], #[trigger] chunks[i]),
    ensures
        states[8].kernel.active_mask == 0xFF,
{
    let m = Seq::new(9, |i: int| states[i].kernel.active_mask);
    let c = Seq::new(9, |i: int| states[i].current_layer as u8);
    lemma_step_at(states, chunks, 0);
    lemma_step_at(states, chunks, 1);
    lemma_step_at(states, chunks, 2);
    lemma_step_at(states, chunks, 3);
    lemma_step_at(states, chunks, 4);
    lemma_step_at(states, chunks, 5);
    lemma_step_at(states, chunks, 6);
    lemma_step_at(states, chunks, 7);
    assert(m[1] == m[0] | (1u8 << c[0]));
    assert(m[2] == m[1] | (1u8 << c[1]));
    assert(m[3] == m[2] | (1u8 << c[2]));
    assert(m[4] == m[3] | (1u8 << c[3]));
    assert(m[5] == m[4] | (1u8 << c[4]));
    assert(m[6] == m[5] | (1u8 << c[5]));
    assert(m[7] == m[6] | (1u8 << c[6]));
    assert(m[8] == m[7] | (1u8 << c[7]));
    let (m0, m8) = (m[0], m[8]);
    let (c0, c1, c2, c3, c4, c5, c6, c7) = (c[0], c[1], c[2], c[3], c[4], c[5], c[6], c[7]);
    let (m1, m2, m3, m4, m5, m6, m7) = (m[1], m[2], m[3], m[4], m[5], m[6], m[7]);
    assert(m8 == 0xFF) by (bit_vector)
        requires
            c0 < 8,
            c1 == (c0 + 1) % 8,
            c2 == (c1 + 1) % 8,
            c3 == (c2 + 1) % 8,
            c4 == (c3 + 1) % 8,
            c5 == (c4 + 1) % 8,
            c6 == (c5 + 1) % 8,
            c7 == (c6 + 1) % 8,
            m1 == m0 | (1u8 << c0),
            m2 == m1 | (1u8 << c1),
            m3 == m2 | (1u8 << c2),
            m4 == m3 | (1u8 << c3),
            m5 == m4 | (1u8 << c4),
            m6 == m5 | (1u8 << c5),
            m7 == m6 | (1u8 << c6),
            m8 == m7 | (1u8 << c7),
    ;
}

} // verus!
