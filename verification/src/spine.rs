//! The spine: a byte map shared between processes, holding a small header
//! and a ring of 64 kernel slots. Writers take the next sequence number from
//! the header in one atomic step and fill the slot that the number selects;
//! readers read any slot below it. Other processes may change the bytes at
//! any time, so what a read finds is an outside result: the verified
//! functions here take the bytes read as arguments.
use vstd::prelude::*;
use memmap2::MmapMut;
use std::sync::atomic::{AtomicU64, Ordering};
use zerocopy::FromBytes;
use crate::codec::{decode_le, encode_le, le_bytes, le_value, lemma_le_bytes_len, lemma_le_roundtrip, lemma_le_value_bound, lemma_pow256_values};
use crate::corn_kernel::{decodes_to, kernel_bytes, lemma_kernel_bytes_len, lemma_kernel_roundtrip, slice_range, CornKernel, KERNEL_BYTES};

verus! {

/// Bytes in the spine.
pub const SPINE_SIZE: usize = 32768;
/// Bytes reserved for the header at the start of the spine.
pub const HEADER_SIZE: usize = 64;
/// Number of kernel slots in the ring.
pub const RING_CAPACITY: usize = 64;
/// Bytes per slot.
pub const SLOT_SIZE: usize = 320;

#[verifier::external_type_specification]
#[verifier::external_body]
pub struct ExMmapMut(MmapMut);

/// The number of bytes a mapping holds; it stays the same for the
/// mapping's life.
pub uninterp spec fn mapped_len(m: MmapMut) -> nat;

/// Calls `MmapMut::len` (the length of the mapped slice). Trusted: it is
/// `mapped_len(m)`.
#[verifier::external_body]
fn map_len(m: &MmapMut) -> (r: usize)
    ensures
        r == mapped_len(*m),
{
    m.len()
}

/// Copies `m[start..start + len]` out through `MmapMut`'s `Deref` to `[u8]`.
/// Trusted: the copy has `len` bytes and does not panic, the range lying in
/// the map. What the bytes are is not claimed: other processes that map the
/// same file may change them at any time.
#[verifier::external_body]
fn map_read(m: &MmapMut, start: usize, len: usize) -> (r: Vec<u8>)
    requires
        start + len <= mapped_len(*m),
    ensures
        r@.len() == len,
{
    m[start..start + len].to_vec()
}

/// The last copy this program issued into a mapping through `map_write`:
/// where it started and the bytes copied.
pub uninterp spec fn last_write(m: MmapMut) -> (int, Seq<u8>);

/// Copies `data` into `m[start..]` through `MmapMut`'s `DerefMut` to `[u8]`.
/// Trusted: the copy issued is `data` at `start` (`last_write`), the mapping
/// keeps its length, and the copy does not panic, the range lying in the map
/// and having the length of `data`. What the bytes are afterwards is not
/// claimed: other processes may write over them.
#[verifier::external_body]
fn map_write(m: &mut MmapMut, start: usize, data: &[u8])
    requires
        start + data@.len() <= mapped_len(*old(m)),
    ensures
        mapped_len(*final(m)) == mapped_len(*old(m)),
        last_write(*final(m)) == (start as int, data@),
    no_unwind
{
    m[start..start + data.len()].copy_from_slice(data)
}

/// Calls `u64::from_le`: the number whose little-endian bytes are the
/// machine's bytes of `x`. What that is depends on the machine's byte order,
/// so nothing is claimed of it.
#[verifier::external_body]
fn word_from_le(x: u64) -> u64 {
    u64::from_le(x)
}

/// Calls `u64::to_le`: the word whose machine bytes are the little-endian
/// bytes of `x`. What that is depends on the machine's byte order, so
/// nothing is claimed of it.
#[verifier::external_body]
fn word_to_le(x: u64) -> u64 {
    u64::to_le(x)
}

/// The header word after counting on: the count it holds little-endian,
/// plus one (wrapping at the top), stored little-endian again.
fn next_header_word(word: u64) -> u64 {
    let n = word_from_le(word);
    let next: u64 = if n == u64::MAX {
        0
    } else {
        n + 1
    };
    word_to_le(next)
}

/// Takes the next sequence number from the header: views the first 8 bytes
/// of the map as an `AtomicU64` through `zerocopy`'s
/// `FromBytes::mut_from_prefix` and replaces the word in one atomic step
/// (`fetch_update` with `SeqCst`, each try by `next_header_word`), so that
/// writers in other processes sharing the file never take the same number;
/// the word taken is read with `word_from_le`. `None` when the map does not
/// start 8-byte aligned. Trusted: the mapping keeps its length, and the call
/// does not panic. The number taken is the count the header held at that
/// step, which other processes move on too, so no value is claimed.
#[verifier::external_body]
fn map_take_seq(m: &mut MmapMut) -> (r: Option<u64>)
    requires
        mapped_len(*old(m)) >= 8,
    ensures
        mapped_len(*final(m)) == mapped_len(*old(m)),
    no_unwind
{
    match AtomicU64::mut_from_prefix(&mut m[..]) {
        Ok((counter, _)) => match counter.fetch_update(Ordering::SeqCst, Ordering::SeqCst, |w| Some(next_header_word(w))) {
            Ok(taken) => Some(word_from_le(taken)),
            Err(_) => None,
        },
        Err(_) => None,
    }
}

/// `b` with the bytes from `start` on replaced by `d`.
pub open spec fn splice(b: Seq<u8>, start: int, d: Seq<u8>) -> Seq<u8> {
    b.take(start) + d + b.skip(start + d.len())
}

/// The next sequence number that the header `b` holds.
pub open spec fn writer_seq_of(b: Seq<u8>) -> nat {
    le_value(b.subrange(0, 8))
}

/// The reader sequence number that the header `b` holds.
pub open spec fn reader_seq_of(b: Seq<u8>) -> nat {
    le_value(b.subrange(8, 16))
}

/// Where the slot of sequence number `seq` starts.
pub open spec fn slot_offset(seq: u64) -> int {
    HEADER_SIZE + (seq % (RING_CAPACITY as u64)) as int * SLOT_SIZE
}

/// The encoded kernel in the slot of `seq`.
pub open spec fn slot_bytes(b: Seq<u8>, seq: u64) -> Seq<u8> {
    b.subrange(slot_offset(seq), slot_offset(seq) + KERNEL_BYTES)
}

/// The sequence number after `seq`, wrapping like an atomic add.
pub open spec fn next_seq(seq: u64) -> u64 {
    if seq == u64::MAX {
        0
    } else {
        (seq + 1) as u64
    }
}

/// The spine bytes after the header has counted on from `seq`.
pub open spec fn counted_on(b: Seq<u8>, seq: u64) -> Seq<u8> {
    splice(b, 0, le_bytes(next_seq(seq) as nat, 8))
}

/// The spine bytes that writing `k` as sequence number `seq` produces when
/// no other process writes in between: the header counts on, the slot holds
/// the encoded kernel.
pub open spec fn after_write(b: Seq<u8>, seq: u64, k: CornKernel) -> Seq<u8> {
    splice(counted_on(b, seq), slot_offset(seq), kernel_bytes(k))
}

/// The header of a spine.
#[derive(Clone, Copy, Debug)]
pub struct SpineHeader {
    pub writer_seq: u64,
    pub reader_seq: u64,
    pub tick: u64,
    pub spine_id: [u8; 16],
}

/// A spine over a byte map of at least `SPINE_SIZE` bytes.
pub struct Spine {
    mmap: MmapMut,
    path: String,
}

proof fn lemma_slot_in_bounds(seq: u64)
    ensures
        HEADER_SIZE <= slot_offset(seq),
        slot_offset(seq) + SLOT_SIZE <= SPINE_SIZE,
        KERNEL_BYTES <= SLOT_SIZE,
{
    let i = seq % 64;
    assert(i < 64);
    assert(i as int * 320 <= 63 * 320) by (nonlinear_arith)
        requires
            i < 64,
    ;
}

/// `h` holds the header fields that the bytes `b` encode: the writer and
/// reader sequence numbers, the tick (all little-endian) and the spine id.
pub open spec fn header_of(h: SpineHeader, b: Seq<u8>) -> bool {
    &&& h.writer_seq as nat == writer_seq_of(b)
    &&& h.reader_seq as nat == reader_seq_of(b)
    &&& h.tick as nat == le_value(b.subrange(16, 24))
    &&& h.spine_id@ == b.subrange(24, 40)
}

/// The answer to reading sequence number `seq` when the header's next number
/// is `writer` and the slot holds `slot`: nothing for a number not yet
/// written, else the kernel the slot encodes.
pub open spec fn read_outcome(seq: u64, writer: u64, slot: Seq<u8>, r: Option<CornKernel>) -> bool {
    &&& r is None <==> seq >= writer
    &&& r matches Some(k) ==> decodes_to(slot, k)
}

/// Decodes the header fields from the first 40 bytes of `b`.
pub fn decode_header(b: &[u8]) -> (r: SpineHeader)
    requires
        b@.len() >= 40,
    ensures
        header_of(r, b@),
{
    let w = decode_le(slice_range(b, 0, 8));
    let rd = decode_le(slice_range(b, 8, 16));
    let tick = decode_le(slice_range(b, 16, 24));
    let mut id: [u8; 16] = [0u8; 16];
    let mut i: usize = 0;
    while i < 16
        invariant
            i <= 16,
            b@.len() >= 40,
            forall|j: int| 0 <= j < i ==> id@[j] == b@[24 + j],
        decreases 16 - i,
    {
        id[i] = b[24 + i];
        i = i + 1;
    }
    assert(id@ =~= b@.subrange(24, 40));
    SpineHeader { writer_seq: w, reader_seq: rd, tick, spine_id: id }
}

/// The kernel that reading `seq` gives when the header's next number is
/// `writer` and the slot of `seq` holds `slot`.
pub fn kernel_at(seq: u64, writer: u64, slot: &[u8]) -> (r: Option<CornKernel>)
    requires
        slot@.len() >= KERNEL_BYTES,
    ensures
        read_outcome(seq, writer, slot@, r),
{
    if seq >= writer {
        None
    } else {
        Some(CornKernel::from_bytes(slot))
    }
}

/// Where the slot of sequence number `seq` starts.
pub fn slot_start(seq: u64) -> (r: usize)
    ensures
        r == slot_offset(seq),
        r + SLOT_SIZE <= SPINE_SIZE,
{
    proof {
        lemma_slot_in_bounds(seq);
    }
    HEADER_SIZE + ((seq % 64) as usize) * SLOT_SIZE
}

/// The sequence number after `seq`, wrapping at the top.
pub fn next_number(seq: u64) -> (r: u64)
    ensures
        r == next_seq(seq),
{
    if seq == u64::MAX {
        0
    } else {
        seq + 1
    }
}

impl Spine {
    #[verifier::type_invariant]
    spec fn large_enough(&self) -> bool {
        mapped_len(self.mmap) >= SPINE_SIZE
    }

    /// The path the spine was opened from.
    pub closed spec fn path_spec(&self) -> Seq<char> {
        self.path@
    }

    /// The last copy this program issued into the spine: where it started
    /// and the bytes copied.
    pub closed spec fn last_issued(&self) -> (int, Seq<u8>) {
        last_write(self.mmap)
    }

    /// A spine over `mmap`, recorded as opened from `path`, with `id` written
    /// into its header; `None` when the map is smaller than `SPINE_SIZE`.
    pub fn attach(mmap: MmapMut, path: String, id: [u8; 16]) -> (r: Option<Self>)
        ensures
            r is None <==> mapped_len(mmap) < SPINE_SIZE,
            r matches Some(s) ==> s.path_spec() == path@ && s.last_issued() == (24int, id@),
    {
        let mut mmap = mmap;
        if map_len(&mmap) < SPINE_SIZE {
            return None;
        }
        map_write(&mut mmap, 24, &id);
        Some(Spine { mmap, path })
    }

    /// The path the spine was opened from.
    pub fn path(&self) -> (r: &str)
        ensures
            r@ == self.path_spec(),
    {
        self.path.as_str()
    }

    /// The next sequence number a write takes, as the header shows it now:
    /// the little-endian value of the 8 bytes read.
    pub fn writer_seq(&self) -> (r: u64)
        ensures
            exists|b: Seq<u8>| b.len() == 8 && r as nat == le_value(b),
    {
        proof {
            use_type_invariant(self);
        }
        let b = map_read(&self.mmap, 0, 8);
        decode_le(b.as_slice())
    }

    /// The reader sequence number the header shows now.
    pub fn reader_seq(&self) -> (r: u64)
        ensures
            exists|b: Seq<u8>| b.len() == 8 && r as nat == le_value(b),
    {
        proof {
            use_type_invariant(self);
        }
        let b = map_read(&self.mmap, 8, 8);
        decode_le(b.as_slice())
    }

    /// The header fields as the header shows them now.
    pub fn header(&self) -> (r: SpineHeader)
        ensures
            exists|b: Seq<u8>| b.len() == 40 && header_of(r, b),
    {
        proof {
            use_type_invariant(self);
        }
        let b = map_read(&self.mmap, 0, 40);
        decode_header(b.as_slice())
    }

    /// Takes the next sequence number in one atomic step (or, on a map that
    /// is not 8-byte aligned, by reading the header and writing the next
    /// number back), writes the encoded kernel into that number's slot and
    /// returns the number. The last copy it issues is the encoded kernel at
    /// the slot of the number it returns; which number the header gave is an
    /// outside result.
    pub fn write(&mut self, kernel: &CornKernel) -> (r: u64)
        ensures
            final(self).path_spec() == old(self).path_spec(),
            final(self).last_issued() == (slot_offset(r), kernel_bytes(*kernel)),
    {
        proof {
            use_type_invariant(&*self);
        }
        let seq = match map_take_seq(&mut self.mmap) {
            Some(s) => s,
            None => {
                let s = self.writer_seq();
                let head = encode_le(next_number(s), 8);
                proof {
                    lemma_le_bytes_len(next_seq(s) as nat, 8);
                }
                map_write(&mut self.mmap, 0, head.as_slice());
                s
            },
        };
        let data = kernel.as_bytes();
        let offset = slot_start(seq);
        map_write(&mut self.mmap, offset, data.as_slice());
        seq
    }

    /// The kernel in the slot of `seq`, if `seq` has been written: that is,
    /// if it is below the next sequence number that the header shows.
    pub fn read(&self, seq: u64) -> (r: Option<CornKernel>)
        ensures
            exists|w: u64, slot: Seq<u8>| slot.len() == KERNEL_BYTES && read_outcome(seq, w, slot, r),
    {
        proof {
            use_type_invariant(self);
            lemma_slot_in_bounds(seq);
        }
        let w = self.writer_seq();
        if seq >= w {
            assert(read_outcome(seq, w, Seq::new(KERNEL_BYTES as nat, |i: int| 0u8), None));
            return None;
        }
        let b = map_read(&self.mmap, slot_start(seq), KERNEL_BYTES);
        kernel_at(seq, w, b.as_slice())
    }
}

/// After a write the header holds the number after the one taken, and the
/// spine keeps its size.
pub proof fn lemma_write_counts_on(b: Seq<u8>, seq: u64, k: CornKernel)
    requires
        b.len() >= SPINE_SIZE,
    ensures
        writer_seq_of(after_write(b, seq, k)) == next_seq(seq),
        after_write(b, seq, k).len() == b.len(),
{
    let nb = after_write(b, seq, k);
    let h = le_bytes(next_seq(seq) as nat, 8);
    lemma_le_bytes_len(next_seq(seq) as nat, 8);
    lemma_pow256_values();
    lemma_le_roundtrip(next_seq(seq) as nat, 8);
    lemma_slot_in_bounds(seq);
    lemma_kernel_bytes_len(k);
    let b1 = splice(b, 0, h);
    assert(b1.len() == b.len());
    assert(b1.subrange(0, 8) =~= h);
    assert(nb.subrange(0, 8) =~= b1.subrange(0, 8));
}

/// The copy that `Spine::write` issues, laid over the spine bytes `b` after
/// the header has counted on from `seq`, gives the image that the layout
/// laws speak of.
pub proof fn lemma_write_image(b: Seq<u8>, seq: u64, k: CornKernel, issued: (int, Seq<u8>))
    requires
        issued == (slot_offset(seq), kernel_bytes(k)),
    ensures
        after_write(b, seq, k) == splice(counted_on(b, seq), issued.0, issued.1),
{
}

/// Reading back the sequence number that a write took gives the kernel it
/// wrote, unless the number was the last one (the header then wraps to 0 and
/// the number counts as unwritten).
pub proof fn lemma_read_back(b: Seq<u8>, seq: u64, k: CornKernel, r: CornKernel)
    requires
        b.len() >= SPINE_SIZE,
        seq < u64::MAX,
        decodes_to(slot_bytes(after_write(b, seq, k), seq), r),
    ensures
        writer_seq_of(after_write(b, seq, k)) == seq + 1,
        r == k,
{
    let nb = after_write(b, seq, k);
    lemma_write_counts_on(b, seq, k);
    lemma_le_bytes_len(next_seq(seq) as nat, 8);
    lemma_slot_in_bounds(seq);
    lemma_kernel_bytes_len(k);
    assert(slot_bytes(nb, seq) =~= kernel_bytes(k));
    lemma_kernel_roundtrip(k, r);
}

/// A write leaves every other slot as it was.
pub proof fn lemma_other_slot_kept(b: Seq<u8>, seq: u64, k: CornKernel, other: u64)
    requires
        b.len() >= SPINE_SIZE,
        seq % (RING_CAPACITY as u64) != other % (RING_CAPACITY as u64),
    ensures
        slot_bytes(after_write(b, seq, k), other) == slot_bytes(b, other),
{
    lemma_slot_in_bounds(seq);
    lemma_slot_in_bounds(other);
    lemma_le_bytes_len(next_seq(seq) as nat, 8);
    lemma_kernel_bytes_len(k);
    let b1 = splice(b, 0, le_bytes(next_seq(seq) as nat, 8));
    assert(b1.len() == b.len());
    assert(slot_bytes(b1, other) =~= slot_bytes(b, other));
    let i = seq % 64;
    let j = other % 64;
    assert(i as int * 320 + 320 <= j as int * 320 || j as int * 320 + 320 <= i as int * 320)
        by (nonlinear_arith)
        requires
            i != j,
    ;
    assert(slot_bytes(after_write(b, seq, k), other) =~= slot_bytes(b, other));
}

} // verus!
