//! Little-endian integer encoding, shared by the kernel, EKU and spine layouts.
use vstd::prelude::*;

verus! {

/// `256^n`.
pub open spec fn pow256(n: nat) -> nat
    decreases n,
{
    if n == 0 {
        1
    } else {
        256 * pow256((n - 1) as nat)
    }
}

/// The `n` low-order bytes of `x`, least significant first.
pub open spec fn le_bytes(x: nat, n: nat) -> Seq<u8>
    decreases n,
{
    if n == 0 {
        Seq::empty()
    } else {
        seq![(x % 256) as u8] + le_bytes(x / 256, (n - 1) as nat)
    }
}

/// The number that the bytes `s` encode, least significant first.
pub open spec fn le_value(s: Seq<u8>) -> nat
    decreases s.len(),
{
    if s.len() == 0 {
        0
    } else {
        s[0] as nat + 256 * le_value(s.drop_first())
    }
}

pub proof fn lemma_le_bytes_len(x: nat, n: nat)
    ensures
        le_bytes(x, n).len() == n,
    decreases n,
{
    if n > 0 {
        lemma_le_bytes_len(x / 256, (n - 1) as nat);
    }
}

pub proof fn lemma_pow256_positive(n: nat)
    ensures
        pow256(n) >= 1,
    decreases n,
{
    if n > 0 {
        lemma_pow256_positive((n - 1) as nat);
    }
}

/// Decoding the encoding of `x` in `n` bytes gives `x` back when `x` fits.
pub proof fn lemma_le_roundtrip(x: nat, n: nat)
    requires
        x < pow256(n),
    ensures
        le_value(le_bytes(x, n)) == x,
    decreases n,
{
    if n > 0 {
        assert(x / 256 < pow256((n - 1) as nat)) by (nonlinear_arith)
            requires
                x < 256 * pow256((n - 1) as nat),
        ;
        lemma_le_roundtrip(x / 256, (n - 1) as nat);
        let s = le_bytes(x, n);
        lemma_le_bytes_len(x / 256, (n - 1) as nat);
        assert(s.drop_first() =~= le_bytes(x / 256, (n - 1) as nat));
    }
}

/// A value decoded from `n` bytes is below `256^n`.
pub proof fn lemma_le_value_bound(s: Seq<u8>)
    ensures
        le_value(s) < pow256(s.len()),
    decreases s.len(),
{
    if s.len() > 0 {
        lemma_le_value_bound(s.drop_first());
        let r = le_value(s.drop_first());
        let p = pow256((s.len() - 1) as nat);
        assert(s[0] as nat + 256 * r < 256 * p) by (nonlinear_arith)
            requires
                r < p,
                s[0] < 256,
        ;
    }
}

pub proof fn lemma_pow256_values()
    ensures
        pow256(2) == 0x1_0000,
        pow256(4) == 0x1_0000_0000,
        pow256(8) == 0x1_0000_0000_0000_0000,
{
    reveal_with_fuel(pow256, 9);
}

/// Encodes the `n` low-order bytes of `x`, least significant first.
pub fn encode_le(x: u64, n: usize) -> (r: Vec<u8>)
    requires
        n <= 8,
    ensures
        r@ == le_bytes(x as nat, n as nat),
{
    let mut r: Vec<u8> = Vec::new();
    let mut v: u64 = x;
    let mut i: usize = 0;
    while i < n
        invariant
            i <= n,
            le_bytes(x as nat, n as nat) == r@ + le_bytes(v as nat, (n - i) as nat),
        decreases n - i,
    {
        let b: u8 = (v % 256) as u8;
        proof {
            let rest = le_bytes((v / 256) as nat, (n - i - 1) as nat);
            assert(le_bytes(v as nat, (n - i) as nat) == seq![b] + rest);
            assert(r@ + (seq![b] + rest) =~= r@.push(b) + rest);
        }
        r.push(b);
        v = v / 256;
        i = i + 1;
    }
    proof {
        assert(le_bytes(v as nat, 0) =~= Seq::<u8>::empty());
        assert(r@ + Seq::<u8>::empty() =~= r@);
    }
    r
}

/// Decodes up to eight little-endian bytes.
pub fn decode_le(s: &[u8]) -> (r: u64)
    requires
        s@.len() <= 8,
    ensures
        r as nat == le_value(s@),
{
    let n = s.len();
    let mut acc: u64 = 0;
    let mut i: usize = n;
    proof {
        assert(s@.subrange(n as int, n as int) =~= Seq::<u8>::empty());
        lemma_pow256_values();
    }
    while i > 0
        invariant
            i <= n,
            n == s@.len(),
            n <= 8,
            acc as nat == le_value(s@.subrange(i as int, n as int)),
            pow256(8) == 0x1_0000_0000_0000_0000,
        decreases i,
    {
        let ghost tail = s@.subrange(i as int, n as int);
        let ghost longer = s@.subrange(i - 1, n as int);
        proof {
            assert(longer.drop_first() =~= tail);
            lemma_le_value_bound(longer);
            lemma_pow256_mono(longer.len(), 8);
        }
        let b = s[i - 1];
        acc = acc * 256 + b as u64;
        i = i - 1;
    }
    proof {
        assert(s@.subrange(0, n as int) =~= s@);
    }
    acc
}

pub proof fn lemma_pow256_mono(a: nat, b: nat)
    requires
        a <= b,
    ensures
        pow256(a) <= pow256(b),
    decreases b,
{
    if a < b {
        lemma_pow256_mono(a, (b - 1) as nat);
        lemma_pow256_positive((b - 1) as nat);
    }
}

/// Appends the bytes of `s` to `v`.
pub fn push_all(v: &mut Vec<u8>, s: &[u8])
    ensures
        final(v)@ == old(v)@ + s@,
{
    let ghost start = v@;
    let mut i: usize = 0;
    while i < s.len()
        invariant
            i <= s@.len(),
            v@ == start + s@.take(i as int),
        decreases s@.len() - i,
    {
        v.push(s[i]);
        assert(start + s@.take(i + 1) =~= (start + s@.take(i as int)).push(s@[i as int]));
        i = i + 1;
    }
    assert(s@.take(s@.len() as int) =~= s@);
}
} // verus!
