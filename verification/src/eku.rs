//! Event Kernel Units: a fixed 96-byte header, a payload and a signature,
//! chained to each other through the SHA-256 of the previous unit.
use vstd::prelude::*;
use std::time::Duration;
use crate::clock::{duration_as_nanos, unix_time_nanos};
use crate::codec::{encode_le, le_bytes, lemma_le_bytes_len, push_all};
use crate::digest::{sha256, sha256_digest};

verus! {

/// Bytes in an encoded header.
pub const HEADER_BYTES: usize = 96;

#[derive(Debug, Clone, Copy)]
pub enum EkuType {
    Query,
    Execute,
    Sync,
    Birth,
}

/// The byte that stands for each kind in a header.
pub open spec fn type_code(t: EkuType) -> u8 {
    match t {
        EkuType::Query => 0x01,
        EkuType::Execute => 0x02,
        EkuType::Sync => 0x03,
        EkuType::Birth => 0x04,
    }
}

impl EkuType {
    /// The byte that stands for this kind in a header.
    pub fn code(&self) -> (r: u8)
        ensures
            r == type_code(*self),
    {
        match self {
            EkuType::Query => 0x01,
            EkuType::Execute => 0x02,
            EkuType::Sync => 0x03,
            EkuType::Birth => 0x04,
        }
    }
}

/// The header of an EKU. `prev_hash` is the chain hash of the previous unit,
/// `sequence` its strictly growing number.
#[derive(Clone, Copy, Debug)]
pub struct EkuHeader {
    pub version: u8,
    pub eku_type: u8,
    pub flags: u8,
    pub _pad: u8,
    pub _align_pad: u32,
    pub timestamp_ns: u64,
    pub sender_id: [u8; 16],
    pub sequence: u64,
    pub mem_chain_ref: [u8; 16],
    pub payload_len: u32,
    pub _reserved: [u8; 4],
    pub prev_hash: [u8; 32],
}

/// `h` carries the given values, version 1 and zero padding; its timestamp
/// is not constrained.
pub open spec fn header_holds(
    h: EkuHeader,
    eku_type: EkuType,
    flags: u8,
    sender_id: [u8; 16],
    sequence: u64,
    mem_chain_ref: [u8; 16],
    payload_len: u32,
    prev_hash: Seq<u8>,
) -> bool {
    &&& h.version == 0x01
    &&& h.eku_type == type_code(eku_type)
    &&& h.flags == flags
    &&& h._pad == 0
    &&& h._align_pad == 0
    &&& h.sender_id == sender_id
    &&& h.sequence == sequence
    &&& h.mem_chain_ref == mem_chain_ref
    &&& h.payload_len == payload_len
    &&& h._reserved@ == seq![0u8, 0u8, 0u8, 0u8]
    &&& h.prev_hash@ == prev_hash
}

/// The 96-byte encoding of a header: the fields in order, integers
/// little-endian, with the alignment padding of the C layout.
pub open spec fn header_bytes_spec(h: EkuHeader) -> Seq<u8> {
    seq![h.version, h.eku_type, h.flags, h._pad] + le_bytes(h._align_pad as nat, 4) + le_bytes(
        h.timestamp_ns as nat,
        8,
    ) + h.sender_id@ + le_bytes(h.sequence as nat, 8) + h.mem_chain_ref@ + le_bytes(
        h.payload_len as nat,
        4,
    ) + h._reserved@ + h.prev_hash@
}

impl EkuHeader {
    /// A header with the given values and timestamp `timestamp_ns`.
    pub fn with_timestamp(
        eku_type: EkuType,
        flags: u8,
        sender_id: [u8; 16],
        sequence: u64,
        mem_chain_ref: [u8; 16],
        payload_len: u32,
        prev_hash: [u8; 32],
        timestamp_ns: u64,
    ) -> (r: Self)
        ensures
            header_holds(r, eku_type, flags, sender_id, sequence, mem_chain_ref, payload_len, prev_hash@),
            r.timestamp_ns == timestamp_ns,
    {
        let reserved: [u8; 4] = [0u8; 4];
        assert(reserved@ =~= seq![0u8, 0u8, 0u8, 0u8]);
        EkuHeader {
            version: 0x01,
            eku_type: eku_type.code(),
            flags,
            _pad: 0,
            _align_pad: 0,
            timestamp_ns,
            sender_id,
            sequence,
            mem_chain_ref,
            payload_len,
            _reserved: reserved,
            prev_hash,
        }
    }

    /// A header with the given values, stamped with the current time in
    /// nanoseconds since the Unix epoch: the timestamp is the clock's reading,
    /// the whole nanoseconds of the duration since the epoch, in 64 bits.
    pub fn with_prev_hash(
        eku_type: EkuType,
        flags: u8,
        sender_id: [u8; 16],
        sequence: u64,
        mem_chain_ref: [u8; 16],
        payload_len: u32,
        prev_hash: [u8; 32],
    ) -> (r: Self)
        ensures
            header_holds(r, eku_type, flags, sender_id, sequence, mem_chain_ref, payload_len, prev_hash@),
            exists|d: Duration| r.timestamp_ns == #[trigger] duration_as_nanos(d) as u64,
    {
        let ts = unix_time_nanos();
        Self::with_timestamp(
            eku_type,
            flags,
            sender_id,
            sequence,
            mem_chain_ref,
            payload_len,
            prev_hash,
            ts,
        )
    }

    /// A header that starts a chain: its previous hash is all zero.
    pub fn new(
        eku_type: EkuType,
        flags: u8,
        sender_id: [u8; 16],
        sequence: u64,
        mem_chain_ref: [u8; 16],
        payload_len: u32,
    ) -> (r: Self)
        ensures
            header_holds(r, eku_type, flags, sender_id, sequence, mem_chain_ref, payload_len, Seq::new(32, |i: int| 0u8)),
            exists|d: Duration| r.timestamp_ns == #[trigger] duration_as_nanos(d) as u64,
    {
        let zero: [u8; 32] = [0u8; 32];
        assert(zero@ =~= Seq::new(32, |i: int| 0u8));
        Self::with_prev_hash(eku_type, flags, sender_id, sequence, mem_chain_ref, payload_len, zero)
    }

    /// The 96-byte encoding of the header.
    pub fn header_bytes(&self) -> (r: Vec<u8>)
        ensures
            r@ == header_bytes_spec(*self),
            r@.len() == HEADER_BYTES,
    {
        let mut r: Vec<u8> = Vec::new();
        r.push(self.version);
        r.push(self.eku_type);
        r.push(self.flags);
        r.push(self._pad);
        let mut a = encode_le(self._align_pad as u64, 4);
        r.append(&mut a);
        let mut t = encode_le(self.timestamp_ns, 8);
        r.append(&mut t);
        push_all(&mut r, &self.sender_id);
        let mut s = encode_le(self.sequence, 8);
        r.append(&mut s);
        push_all(&mut r, &self.mem_chain_ref);
        let mut p = encode_le(self.payload_len as u64, 4);
        r.append(&mut p);
        push_all(&mut r, &self._reserved);
        push_all(&mut r, &self.prev_hash);
        proof {
            lemma_le_bytes_len(self._align_pad as nat, 4);
            lemma_le_bytes_len(self.timestamp_ns as nat, 8);
            lemma_le_bytes_len(self.sequence as nat, 8);
            lemma_le_bytes_len(self.payload_len as nat, 4);
            assert(r@ =~= header_bytes_spec(*self));
        }
        r
    }
}

/// An event unit: header, payload and a 64-byte signature (all zero while
/// unsigned).
pub struct Eku {
    pub header: EkuHeader,
    pub payload: Vec<u8>,
    pub signature: [u8; 64],
}

/// The encoding of a unit: header, payload, signature.
pub open spec fn eku_bytes(e: &Eku) -> Seq<u8> {
    header_bytes_spec(e.header) + e.payload@ + e.signature@
}

/// The bytes that a signature covers: header and payload.
pub open spec fn signed_bytes(e: &Eku) -> Seq<u8> {
    header_bytes_spec(e.header) + e.payload@
}

/// The chain hash of a unit: SHA-256 of its encoding.
pub open spec fn chain_hash_spec(e: &Eku) -> Seq<u8> {
    sha256_digest(eku_bytes(e))
}

impl Eku {
    /// An unsigned unit.
    pub fn new(header: EkuHeader, payload: Vec<u8>) -> (r: Self)
        ensures
            r.header == header,
            r.payload@ == payload@,
            r.signature@ == Seq::new(64, |i: int| 0u8),
    {
        let r = Eku { signature: [0u8; 64], header, payload };
        assert(r.signature@ =~= Seq::new(64, |i: int| 0u8));
        r
    }

    /// Whether any signature byte is nonzero.
    pub fn is_signed(&self) -> (r: bool)
        ensures
            r == exists|i: int| 0 <= i < 64 && #[trigger] self.signature@[i] != 0,
    {
        let mut i: usize = 0;
        while i < 64
            invariant
                i <= 64,
                forall|j: int| 0 <= j < i ==> #[trigger] self.signature@[j] == 0,
            decreases 64 - i,
        {
            if self.signature[i] != 0 {
                return true;
            }
            i = i + 1;
        }
        false
    }

    /// The bytes that a signature covers: header and payload.
    pub fn signed_bytes(&self) -> (r: Vec<u8>)
        ensures
            r@ == signed_bytes(self),
    {
        let mut r = self.header.header_bytes();
        push_all(&mut r, self.payload.as_slice());
        r
    }

    /// The encoding of the unit: header, payload, signature.
    pub fn to_bytes(&self) -> (r: Vec<u8>)
        ensures
            r@ == eku_bytes(self),
    {
        let mut r = self.signed_bytes();
        push_all(&mut r, &self.signature);
        r
    }

    /// SHA-256 of the whole unit; the next unit's `prev_hash`.
    pub fn chain_hash(&self) -> (r: [u8; 32])
        ensures
            r@ == chain_hash_spec(self),
    {
        let b = self.to_bytes();
        sha256(b.as_slice())
    }
}

} // verus!
