//! Merkle trees over 32-byte hashes, membership proofs, and the signer that
//! seals EKUs into signed batches chained root to root.
use vstd::prelude::*;
use crate::codec::{encode_le, le_bytes, push_all};
use crate::crypto::{ed25519_accepts, ed25519_signature, HopeKeyPair};
use crate::digest::{sha256, sha256_digest};
use crate::eku::{chain_hash_spec, Eku};

verus! {

/// Number of EKUs after which a batch is sealed on its own.
pub const BATCH_SIZE: usize = 32;

/// The hash of an inner node: SHA-256 of the left child then the right.
pub open spec fn node_hash(left: Seq<u8>, right: Seq<u8>) -> Seq<u8> {
    sha256_digest(left + right)
}

/// The right partner of the node at even position `i`: the next node, or the
/// node itself when it is the last of an odd level.
pub open spec fn right_of(level: Seq<[u8; 32]>, i: int) -> [u8; 32] {
    if i + 1 < level.len() {
        level[i + 1]
    } else {
        level[i]
    }
}

/// `next` is the level above `cur`: one node per pair, the last node of an
/// odd level paired with itself.
pub open spec fn is_parent_level(cur: Seq<[u8; 32]>, next: Seq<[u8; 32]>) -> bool {
    &&& next.len() == (cur.len() + 1) / 2
    &&& forall|j: int|
        0 <= j < next.len() ==> #[trigger] next[j]@ == node_hash(cur[2 * j]@, right_of(cur, 2 * j)@)
}

/// `levels` runs from a nonempty level up to a single root, each level the
/// parent level of the one below.
pub open spec fn levels_wf(levels: Seq<Seq<[u8; 32]>>) -> bool {
    &&& levels.len() >= 1
    &&& levels[0].len() >= 1
    &&& levels_chained(levels)
    &&& levels.last().len() == 1
}

/// Each level but the last has more than one node, and the next level is
/// its parent level.
pub open spec fn levels_chained(levels: Seq<Seq<[u8; 32]>>) -> bool {
    &&& forall|k: int| 0 <= k < levels.len() - 1 ==> #[trigger] levels[k].len() > 1
    &&& forall|k: int|
        0 <= k < levels.len() - 1 ==> #[trigger] is_parent_level(levels[k], levels[k + 1])
}

proof fn lemma_chain_extend(before: Seq<Seq<[u8; 32]>>, next: Seq<[u8; 32]>)
    requires
        before.len() >= 1,
        levels_chained(before),
        before.last().len() > 1,
        is_parent_level(before.last(), next),
    ensures
        levels_chained(before.push(next)),
{
    let after = before.push(next);
    assert forall|k: int| 0 <= k < after.len() - 1 implies #[trigger] after[k].len() > 1 by {
        if k < before.len() - 1 {
            assert(before[k].len() > 1);
        }
    }
    assert forall|k: int| 0 <= k < after.len() - 1 implies #[trigger] is_parent_level(
        after[k],
        after[k + 1],
    ) by {
        if k < before.len() - 1 {
            assert(is_parent_level(before[k], before[k + 1]));
            assert(after[k] == before[k] && after[k + 1] == before[k + 1]);
        } else {
            assert(after[k] == before.last());
            assert(after[k + 1] == next);
        }
    }
}

fn hash_pair(left: &[u8; 32], right: &[u8; 32]) -> (r: [u8; 32])
    ensures
        r@ == node_hash(left@, right@),
{
    let mut buf: Vec<u8> = Vec::new();
    push_all(&mut buf, left);
    push_all(&mut buf, right);
    sha256(buf.as_slice())
}

fn copy_hashes(v: &Vec<[u8; 32]>) -> (r: Vec<[u8; 32]>)
    ensures
        r@ == v@,
{
    let mut r: Vec<[u8; 32]> = Vec::new();
    let mut i: usize = 0;
    while i < v.len()
        invariant
            i <= v@.len(),
            r@ == v@.take(i as int),
        decreases v@.len() - i,
    {
        r.push(v[i]);
        assert(v@.take(i + 1) =~= v@.take(i as int).push(v@[i as int]));
        i = i + 1;
    }
    assert(v@.take(v@.len() as int) =~= v@);
    r
}

fn bytes_equal(a: &[u8; 32], b: &[u8; 32]) -> (r: bool)
    ensures
        r == (a@ == b@),
{
    let mut i: usize = 0;
    while i < 32
        invariant
            i <= 32,
            forall|j: int| 0 <= j < i ==> a@[j] == b@[j],
        decreases 32 - i,
    {
        if a[i] != b[i] {
            return false;
        }
        i = i + 1;
    }
    assert(a@ =~= b@);
    true
}

/// The parent level of `cur`.
fn parent_level(cur: &Vec<[u8; 32]>) -> (r: Vec<[u8; 32]>)
    requires
        cur@.len() >= 1,
    ensures
        is_parent_level(cur@, r@),
{
    let len = cur.len();
    let pairs = len / 2 + len % 2;
    let mut next: Vec<[u8; 32]> = Vec::new();
    let mut j: usize = 0;
    while j < pairs
        invariant
            j <= pairs,
            len == cur@.len(),
            pairs == (len + 1) / 2,
            next@.len() == j,
            forall|t: int|
                0 <= t < j ==> #[trigger] next@[t]@ == node_hash(cur@[2 * t]@, right_of(cur@, 2 * t)@),
        decreases pairs - j,
    {
        let i = 2 * j;
        let left = cur[i];
        let right = if i + 1 < len {
            cur[i + 1]
        } else {
            cur[i]
        };
        next.push(hash_pair(&left, &right));
        j = j + 1;
    }
    next
}

/// A Merkle tree: `levels[0]` holds the leaves, each level above pairs the
/// one below, and `root` is the single node of the top level.
pub struct MerkleTree {
    pub leaves: Vec<[u8; 32]>,
    pub levels: Vec<Vec<[u8; 32]>>,
    pub root: [u8; 32],
}

/// The levels of a tree as sequences.
pub open spec fn level_seq(levels: Seq<Vec<[u8; 32]>>) -> Seq<Seq<[u8; 32]>> {
    levels.map_values(|l: Vec<[u8; 32]>| l@)
}

/// The position of leaf `index`'s ancestor at level `k`.
pub open spec fn level_index(index: nat, k: nat) -> nat
    decreases k,
{
    if k == 0 {
        index
    } else {
        level_index(index, (k - 1) as nat) / 2
    }
}

/// The node that a path through position `i` of `level` pairs with.
pub open spec fn sibling_at(level: Seq<[u8; 32]>, i: int) -> [u8; 32] {
    if i % 2 == 0 {
        right_of(level, i)
    } else {
        level[i - 1]
    }
}

/// The siblings along the path from leaf `index` to the root, bottom up.
pub open spec fn member_siblings(levels: Seq<Seq<[u8; 32]>>, index: nat) -> Seq<[u8; 32]> {
    Seq::new(
        (levels.len() - 1) as nat,
        |k: int| sibling_at(levels[k], level_index(index, k as nat) as int),
    )
}

/// For each step of that path, whether the sibling stands on the left.
pub open spec fn member_sides(levels: Seq<Seq<[u8; 32]>>, index: nat) -> Seq<bool> {
    Seq::new((levels.len() - 1) as nat, |k: int| level_index(index, k as nat) % 2 == 1)
}

/// The hash reached from `leaf` after the first `k` steps of a path.
pub open spec fn fold_path(leaf: Seq<u8>, sibs: Seq<[u8; 32]>, sides: Seq<bool>, k: nat) -> Seq<u8>
    decreases k,
{
    if k == 0 {
        leaf
    } else {
        let cur = fold_path(leaf, sibs, sides, (k - 1) as nat);
        if sides[k - 1] {
            node_hash(sibs[k - 1]@, cur)
        } else {
            node_hash(cur, sibs[k - 1]@)
        }
    }
}

impl MerkleTree {
    pub open spec fn wf(&self) -> bool {
        let lv = level_seq(self.levels@);
        &&& levels_wf(lv)
        &&& lv[0] == self.leaves@
        &&& self.root == lv.last()[0]
    }

    /// The tree over `leaves`; `None` when there are none. A level of odd
    /// length pairs its last node with itself.
    pub fn build(leaves: Vec<[u8; 32]>) -> (r: Option<Self>)
        ensures
            r is None <==> leaves@.len() == 0,
            r matches Some(t) ==> t.wf() && t.leaves@ == leaves@,
    {
        if leaves.len() == 0 {
            return None;
        }
        let mut levels: Vec<Vec<[u8; 32]>> = Vec::new();
        levels.push(copy_hashes(&leaves));
        let mut cur = copy_hashes(&leaves);
        assert(level_seq(levels@) =~= seq![leaves@]);
        while cur.len() > 1
            invariant
                cur@.len() >= 1,
                leaves@.len() >= 1,
                level_seq(levels@).len() >= 1,
                level_seq(levels@)[0] == leaves@,
                level_seq(levels@).last() == cur@,
                levels_chained(level_seq(levels@)),
            decreases cur@.len(),
        {
            let next = parent_level(&cur);
            let ghost before = level_seq(levels@);
            levels.push(copy_hashes(&next));
            assert(level_seq(levels@) =~= before.push(next@));
            proof {
                lemma_chain_extend(before, next@);
            }
            cur = next;
            assert(level_seq(levels@).last() == cur@);
        }
        let root = cur[0];
        let ghost lv = level_seq(levels@);
        let t = MerkleTree { leaves, levels, root };
        assert(level_seq(t.levels@) == lv);
        Some(t)
    }

    /// A proof that leaf `index` belongs to the tree; `None` when there is
    /// no such leaf.
    pub fn proof_of(&self, index: usize) -> (r: Option<MerkleProof>)
        requires
            self.wf(),
        ensures
            r is None <==> index >= self.leaves@.len(),
            r matches Some(p) ==> {
                &&& p.leaf == self.leaves@[index as int]
                &&& p.root == self.root
                &&& p.siblings@ == member_siblings(level_seq(self.levels@), index as nat)
                &&& p.is_right@ == member_sides(level_seq(self.levels@), index as nat)
                &&& p.accepted()
            },
    {
        if index >= self.leaves.len() {
            return None;
        }
        let ghost lv = level_seq(self.levels@);
        let n = self.levels.len();
        let mut siblings: Vec<[u8; 32]> = Vec::new();
        let mut is_right: Vec<bool> = Vec::new();
        let mut idx: usize = index;
        let mut k: usize = 0;
        while k + 1 < n
            invariant
                self.wf(),
                lv == level_seq(self.levels@),
                n == lv.len(),
                k < n,
                index < lv[0].len(),
                idx == level_index(index as nat, k as nat),
                idx < lv[k as int].len(),
                siblings@.len() == k,
                is_right@.len() == k,
                forall|t: int|
                    0 <= t < k ==> #[trigger] siblings@[t] == sibling_at(
                        lv[t],
                        level_index(index as nat, t as nat) as int,
                    ),
                forall|t: int|
                    0 <= t < k ==> #[trigger] is_right@[t] == (level_index(index as nat, t as nat) % 2
                        == 1),
            decreases n - k,
        {
            let level = &self.levels[k];
            assert(level@ == lv[k as int]);
            let sib_idx = if idx % 2 == 0 {
                idx + 1
            } else {
                idx - 1
            };
            let sibling = if sib_idx < level.len() {
                level[sib_idx]
            } else {
                level[idx]
            };
            siblings.push(sibling);
            is_right.push(idx % 2 != 0);
            proof {
                assert(is_parent_level(lv[k as int], lv[k + 1]));
            }
            idx = idx / 2;
            k = k + 1;
        }
        proof {
            assert(siblings@ =~= member_siblings(lv, index as nat));
            assert(is_right@ =~= member_sides(lv, index as nat));
            lemma_member_path(lv, index as nat, (n - 1) as nat);
        }
        let p = MerkleProof {
            leaf: self.leaves[index],
            siblings,
            is_right,
            root: self.root,
        };
        Some(p)
    }
}

/// The path folded for `k` steps from leaf `index` reaches the ancestor of
/// the leaf at level `k`.
pub proof fn lemma_member_path(levels: Seq<Seq<[u8; 32]>>, index: nat, k: nat)
    requires
        levels_wf(levels),
        index < levels[0].len(),
        k < levels.len(),
    ensures
        level_index(index, k) < levels[k as int].len(),
        fold_path(levels[0][index as int]@, member_siblings(levels, index), member_sides(levels, index), k)
            == levels[k as int][level_index(index, k) as int]@,
    decreases k,
{
    if k > 0 {
        let km = (k - 1) as nat;
        lemma_member_path(levels, index, km);
        let cur = levels[km as int];
        let next = levels[k as int];
        assert(is_parent_level(levels[km as int], levels[km as int + 1]));
        let i = level_index(index, km);
        let j = i / 2;
        assert(level_index(index, k) == j);
        assert(next[j as int]@ == node_hash(cur[2 * j as int]@, right_of(cur, 2 * j as int)@));
        let sibs = member_siblings(levels, index);
        let sides = member_sides(levels, index);
        assert(sibs[km as int] == sibling_at(cur, i as int));
        assert(sides[km as int] == (i % 2 == 1));
    }
}

/// Every member of a well-formed tree has a path that folds to the root.
pub proof fn lemma_members_reach_root(tree: MerkleTree, index: nat)
    requires
        tree.wf(),
        index < tree.leaves@.len(),
    ensures
        fold_path(
            tree.leaves@[index as int]@,
            member_siblings(level_seq(tree.levels@), index),
            member_sides(level_seq(tree.levels@), index),
            (tree.levels@.len() - 1) as nat,
        ) == tree.root@,
{
    let lv = level_seq(tree.levels@);
    lemma_member_path(lv, index, (lv.len() - 1) as nat);
}

/// A self-contained membership proof: the leaf, its siblings bottom up, on
/// which side each sibling stands, and the root they should reach.
#[derive(Debug, Clone)]
pub struct MerkleProof {
    pub leaf: [u8; 32],
    pub siblings: Vec<[u8; 32]>,
    pub is_right: Vec<bool>,
    pub root: [u8; 32],
}

impl MerkleProof {
    /// Steps in the path: siblings and sides are taken pairwise.
    pub open spec fn steps(&self) -> nat {
        if self.siblings@.len() <= self.is_right@.len() {
            self.siblings@.len()
        } else {
            self.is_right@.len()
        }
    }

    /// Whether folding the leaf along the path reaches the root.
    pub open spec fn accepted(&self) -> bool {
        fold_path(self.leaf@, self.siblings@, self.is_right@, self.steps()) == self.root@
    }

    /// Whether the leaf, hashed up along the siblings, gives the root.
    pub fn verify(&self) -> (r: bool)
        ensures
            r == self.accepted(),
    {
        let m = if self.siblings.len() <= self.is_right.len() {
            self.siblings.len()
        } else {
            self.is_right.len()
        };
        let mut current: [u8; 32] = self.leaf;
        let mut i: usize = 0;
        while i < m
            invariant
                i <= m,
                m == self.steps(),
                current@ == fold_path(self.leaf@, self.siblings@, self.is_right@, i as nat),
            decreases m - i,
        {
            let sibling = self.siblings[i];
            current = if self.is_right[i] {
                hash_pair(&sibling, &current)
            } else {
                hash_pair(&current, &sibling)
            };
            i = i + 1;
        }
        bytes_equal(&current, &self.root)
    }
}

/// The message that a batch signature covers: the root, the previous root
/// hash, then the batch number as 8 little-endian bytes.
pub open spec fn batch_message(root: Seq<u8>, prev: Seq<u8>, batch_seq: u64) -> Seq<u8> {
    root + prev + le_bytes(batch_seq as nat, 8)
}

/// A signed batch: the Merkle root over the chain hashes of its EKUs, the
/// hash of the previous batch's root, and the signature over both and the
/// batch number.
pub struct SignedBatch {
    pub batch_seq: u64,
    pub root: [u8; 32],
    pub prev_root_hash: [u8; 32],
    pub signature: [u8; 64],
    pub tree: MerkleTree,
    pub eku_count: usize,
}

/// `b` seals `units` as batch `batch_seq` after the root hash `prev`, signed
/// with the secret key `secret` whose public key is `public`.
pub open spec fn sealed(
    units: Seq<Eku>,
    batch_seq: u64,
    prev: Seq<u8>,
    secret: Seq<u8>,
    public: Seq<u8>,
    b: SignedBatch,
) -> bool {
    &&& b.eku_count == units.len()
    &&& b.tree.wf()
    &&& b.tree.leaves@.len() == units.len()
    &&& forall|i: int| 0 <= i < units.len() ==> #[trigger] b.tree.leaves@[i]@ == chain_hash_spec(&units[i])
    &&& b.root == b.tree.root
    &&& b.prev_root_hash@ == prev
    &&& b.batch_seq == batch_seq
    &&& b.signature@ == ed25519_signature(secret, batch_message(b.root@, prev, batch_seq))
    &&& ed25519_accepts(public, batch_message(b.root@, prev, batch_seq), b.signature@)
}

/// What `BatchSigner::verify_batch` answers for `b` and `prev` under the
/// public key `public`.
pub open spec fn batch_accepted(public: Seq<u8>, b: SignedBatch, prev: Seq<u8>) -> bool {
    b.prev_root_hash@ == prev && ed25519_accepts(
        public,
        batch_message(b.root@, prev, b.batch_seq),
        b.signature@,
    )
}

impl SignedBatch {
    /// Whether the batch follows the root hash `expected_prev`.
    pub fn verify_chain(&self, expected_prev: &[u8; 32]) -> (r: bool)
        ensures
            r == (self.prev_root_hash@ == expected_prev@),
    {
        bytes_equal(&self.prev_root_hash, expected_prev)
    }
}

/// A sealed batch passes the signer's check against the previous root hash
/// that it carries.
pub proof fn lemma_sealed_batch_accepted(
    units: Seq<Eku>,
    batch_seq: u64,
    prev: Seq<u8>,
    secret: Seq<u8>,
    public: Seq<u8>,
    b: SignedBatch,
)
    requires
        sealed(units, batch_seq, prev, secret, public, b),
    ensures
        batch_accepted(public, b, b.prev_root_hash@),
{
}

/// The signer goes from `old` to `new` by sealing `units` as its next batch
/// `b`: nothing waits any more, the number moves on by one, and the chain
/// head becomes the SHA-256 of the new root.
pub open spec fn seal_step(old: BatchSigner, new: BatchSigner, units: Seq<Eku>, b: SignedBatch) -> bool {
    &&& sealed(units, old.next_batch_seq(), old.chain_head(), old.secret_key(), old.public_key(), b)
    &&& new.chain_head() == sha256_digest(b.root@)
    &&& new.pending_units().len() == 0
    &&& new.next_batch_seq() == old.next_batch_seq() + 1
}

/// The signer keeps its keys from `old` to `new`.
pub open spec fn same_keys(old: BatchSigner, new: BatchSigner) -> bool {
    new.secret_key() == old.secret_key() && new.public_key() == old.public_key()
}

/// One `push(eku)` from `old` to `new` answering `r`: the EKU waits, unless
/// it makes `BATCH_SIZE`, when everything waiting is sealed at once.
pub open spec fn push_step(old: BatchSigner, new: BatchSigner, eku: Eku, r: Option<SignedBatch>) -> bool {
    &&& same_keys(old, new)
    &&& if old.pending_units().len() + 1 < BATCH_SIZE {
        &&& r is None
        &&& new.pending_units() == old.pending_units().push(eku)
        &&& new.next_batch_seq() == old.next_batch_seq()
        &&& new.chain_head() == old.chain_head()
    } else {
        r matches Some(b) && seal_step(old, new, old.pending_units().push(eku), b)
    }
}

/// One `flush()` from `old` to `new` answering `r`: whatever waits is sealed;
/// with nothing waiting, nothing happens.
pub open spec fn flush_step(old: BatchSigner, new: BatchSigner, r: Option<SignedBatch>) -> bool {
    &&& same_keys(old, new)
    &&& if old.pending_units().len() == 0 {
        &&& r is None
        &&& new.pending_units().len() == 0
        &&& new.next_batch_seq() == old.next_batch_seq()
        &&& new.chain_head() == old.chain_head()
    } else {
        r matches Some(b) && seal_step(old, new, old.pending_units(), b)
    }
}

/// A `push` (`Some(eku)`) or a `flush` (`None`) from `old` to `new` answering `r`.
pub open spec fn signer_step(old: BatchSigner, new: BatchSigner, op: Option<Eku>, r: Option<SignedBatch>) -> bool {
    match op {
        Some(eku) => push_step(old, new, eku, r),
        None => flush_step(old, new, r),
    }
}

/// A batch that a `push` or `flush` seals passes the same signer's check
/// against the previous root hash it carries, and against no other.
pub proof fn lemma_batch_checks_against_its_prev(
    old: BatchSigner,
    new: BatchSigner,
    op: Option<Eku>,
    r: Option<SignedBatch>,
    prev: Seq<u8>,
)
    requires
        signer_step(old, new, op, r),
    ensures
        r matches Some(b) ==> (batch_accepted(new.public_key(), b, prev) <==> prev == b.prev_root_hash@),
{
}

/// The batches among the first `k` answers, in order.
pub open spec fn produced(results: Seq<Option<SignedBatch>>, k: nat) -> Seq<SignedBatch>
    decreases k,
{
    if k == 0 {
        Seq::empty()
    } else {
        let before = produced(results, (k - 1) as nat);
        match results[k - 1] {
            Some(b) => before.push(b),
            None => before,
        }
    }
}

/// The EKUs pushed among the first `k` operations, in order.
pub open spec fn pushed(ops: Seq<Option<Eku>>, k: nat) -> Seq<Eku>
    decreases k,
{
    if k == 0 {
        Seq::empty()
    } else {
        let before = pushed(ops, (k - 1) as nat);
        match ops[k - 1] {
            Some(e) => before.push(e),
            None => before,
        }
    }
}

/// The chain hashes of `units`.
pub open spec fn unit_hashes(units: Seq<Eku>) -> Seq<Seq<u8>> {
    units.map_values(|e: Eku| chain_hash_spec(&e))
}

/// The leaves of `bs`, batch after batch.
pub open spec fn batch_leaves(bs: Seq<SignedBatch>) -> Seq<Seq<u8>>
    decreases bs.len(),
{
    if bs.len() == 0 {
        Seq::empty()
    } else {
        batch_leaves(bs.drop_last()) + bs.last().tree.leaves@.map_values(|l: [u8; 32]| l@)
    }
}

/// `bs` are numbered on from `seq0`, the first follows `head0` and each
/// other the SHA-256 of the root before it, and each is accepted under
/// `public`.
pub open spec fn chained_from(bs: Seq<SignedBatch>, seq0: u64, head0: Seq<u8>, public: Seq<u8>) -> bool {
    forall|j: int|
        0 <= j < bs.len() ==> {
            &&& #[trigger] bs[j].batch_seq == seq0 + j
            &&& bs[j].prev_root_hash@ == if j == 0 {
                head0
            } else {
                sha256_digest(bs[j - 1].root@)
            }
            &&& batch_accepted(public, bs[j], bs[j].prev_root_hash@)
        }
}

proof fn lemma_sealed_leaves(units: Seq<Eku>, batch_seq: u64, prev: Seq<u8>, secret: Seq<u8>, public: Seq<u8>, b: SignedBatch)
    requires
        sealed(units, batch_seq, prev, secret, public, b),
    ensures
        b.tree.leaves@.map_values(|l: [u8; 32]| l@) == unit_hashes(units),
        batch_accepted(public, b, prev),
{
    assert(b.tree.leaves@.map_values(|l: [u8; 32]| l@) =~= unit_hashes(units));
}

/// `after` is `before`, or `before` and one more batch that `old` sealed.
spec fn new_batch_fact(before: Seq<SignedBatch>, after: Seq<SignedBatch>, old: BatchSigner) -> bool {
    ||| after == before
    ||| {
        &&& after.len() == before.len() + 1
        &&& after.drop_last() == before
        &&& after.last().batch_seq == old.next_batch_seq()
        &&& after.last().prev_root_hash@ == old.chain_head()
        &&& batch_accepted(old.public_key(), after.last(), after.last().prev_root_hash@)
    }
}

proof fn lemma_signer_run(
    states: Seq<BatchSigner>,
    ops: Seq<Option<Eku>>,
    results: Seq<Option<SignedBatch>>,
    k: nat,
)
    requires
        states.len() == ops.len() + 1,
        results.len() == ops.len(),
        forall|i: int| 0 <= i < ops.len() ==> #[trigger] signer_step(states[i], states[i + 1], ops[i], results[i]),
        k <= ops.len(),
    ensures
        same_keys(states[0], states[k as int]),
        states[k as int].next_batch_seq() == states[0].next_batch_seq() + produced(results, k).len(),
        states[k as int].chain_head() == if produced(results, k).len() == 0 {
            states[0].chain_head()
        } else {
            sha256_digest(produced(results, k).last().root@)
        },
        batch_leaves(produced(results, k)) + unit_hashes(states[k as int].pending_units()) == unit_hashes(
            states[0].pending_units() + pushed(ops, k),
        ),
        chained_from(produced(results, k), states[0].next_batch_seq(), states[0].chain_head(), states[0].public_key()),
    decreases k,
{
    if k == 0 {
        assert(states[0].pending_units() + pushed(ops, 0) =~= states[0].pending_units());
        assert(batch_leaves(produced(results, 0)) + unit_hashes(states[0].pending_units()) =~= unit_hashes(
            states[0].pending_units(),
        ));
    } else {
        let km = (k - 1) as nat;
        lemma_signer_run(states, ops, results, km);
        let old = states[km as int];
        let new = states[km as int + 1];
        assert(new == states[k as int]);
        assert(signer_step(old, new, ops[km as int], results[km as int]));
        let before = produced(results, km);
        let start = states[0].pending_units();
        assert(unit_hashes(start + pushed(ops, km)) == batch_leaves(before) + unit_hashes(old.pending_units()));
        match ops[km as int] {
            Some(e) => {
                assert(pushed(ops, k) == pushed(ops, km).push(e));
                assert(start + pushed(ops, k) =~= (start + pushed(ops, km)).push(e));
                assert(unit_hashes((start + pushed(ops, km)).push(e)) =~= unit_hashes(start + pushed(ops, km)).push(
                    chain_hash_spec(&e),
                ));
                assert(unit_hashes(old.pending_units().push(e)) =~= unit_hashes(old.pending_units()).push(
                    chain_hash_spec(&e),
                ));
                if old.pending_units().len() + 1 < BATCH_SIZE {
                    assert(produced(results, k) == before);
                    assert(new_batch_fact(before, produced(results, k), old));
                } else {
                    let b = results[km as int]->0;
                    assert(produced(results, k) == before.push(b));
                    lemma_sealed_leaves(
                        old.pending_units().push(e),
                        old.next_batch_seq(),
                        old.chain_head(),
                        old.secret_key(),
                        old.public_key(),
                        b,
                    );
                    assert(before.push(b).drop_last() =~= before);
                    assert(unit_hashes(new.pending_units()) =~= Seq::<Seq<u8>>::empty());
                    assert(new_batch_fact(before, produced(results, k), old));
                }
            },
            None => {
                assert(pushed(ops, k) == pushed(ops, km));
                if old.pending_units().len() == 0 {
                    assert(produced(results, k) == before);
                    assert(unit_hashes(new.pending_units()) =~= unit_hashes(old.pending_units()));
                    assert(new_batch_fact(before, produced(results, k), old));
                } else {
                    let b = results[km as int]->0;
                    assert(produced(results, k) == before.push(b));
                    lemma_sealed_leaves(
                        old.pending_units(),
                        old.next_batch_seq(),
                        old.chain_head(),
                        old.secret_key(),
                        old.public_key(),
                        b,
                    );
                    assert(before.push(b).drop_last() =~= before);
                    assert(unit_hashes(new.pending_units()) =~= Seq::<Seq<u8>>::empty());
                    assert(new_batch_fact(before, produced(results, k), old));
                }
            },
        }
        let after = produced(results, k);
        assert(new_batch_fact(before, after, old));
        assert(same_keys(states[0], old));
        assert(old.next_batch_seq() == states[0].next_batch_seq() + before.len());
        assert forall|j: int| 0 <= j < after.len() implies {
            &&& #[trigger] after[j].batch_seq == states[0].next_batch_seq() + j
            &&& after[j].prev_root_hash@ == if j == 0 {
                states[0].chain_head()
            } else {
                sha256_digest(after[j - 1].root@)
            }
            &&& batch_accepted(states[0].public_key(), after[j], after[j].prev_root_hash@)
        } by {
            if j < before.len() {
                assert(chained_from(before, states[0].next_batch_seq(), states[0].chain_head(), states[0].public_key()));
                assert(before[j].batch_seq == states[0].next_batch_seq() + j);
                assert(after[j] == before[j]);
                if j > 0 {
                    assert(after[j - 1] == before[j - 1]);
                }
            } else {
                assert(after != before);
                assert(after[j] == after.last());
                assert(after[j].batch_seq == states[0].next_batch_seq() + j);
                if j > 0 {
                    assert(after[j - 1] == before.last());
                }
                assert(after[j].prev_root_hash@ == if j == 0 {
                    states[0].chain_head()
                } else {
                    sha256_digest(after[j - 1].root@)
                });
                assert(batch_accepted(states[0].public_key(), after[j], after[j].prev_root_hash@));
            }
        }
    }
}

/// Whatever run of pushes and flushes a signer goes through, no EKU is lost,
/// repeated or reordered: the leaves of the batches it seals, followed by the
/// chain hashes of what still waits, are the chain hashes of what waited at
/// the start and then of every pushed EKU, in order. The batches are
/// numbered one after the other, the first follows the chain head the run
/// started from and each other the SHA-256 of the root before it, and each
/// is accepted under the signer's public key.
pub proof fn lemma_batches_conserve_and_chain(
    states: Seq<BatchSigner>,
    ops: Seq<Option<Eku>>,
    results: Seq<Option<SignedBatch>>,
)
    requires
        states.len() == ops.len() + 1,
        results.len() == ops.len(),
        forall|i: int| 0 <= i < ops.len() ==> #[trigger] signer_step(states[i], states[i + 1], ops[i], results[i]),
    ensures
        batch_leaves(produced(results, ops.len())) + unit_hashes(states.last().pending_units()) == unit_hashes(
            states[0].pending_units() + pushed(ops, ops.len()),
        ),
        chained_from(
            produced(results, ops.len()),
            states[0].next_batch_seq(),
            states[0].chain_head(),
            states[0].public_key(),
        ),
{
    lemma_signer_run(states, ops, results, ops.len());
    assert(states.last() == states[ops.len() as int]);
}

/// Collects EKUs and seals them into signed batches of at most `BATCH_SIZE`,
/// each chained to the SHA-256 of the previous batch's root.
pub struct BatchSigner {
    keypair: HopeKeyPair,
    pending: Vec<Eku>,
    batch_seq: u64,
    last_root_hash: [u8; 32],
}

impl BatchSigner {
    #[verifier::type_invariant]
    spec fn below_limit(&self) -> bool {
        self.pending@.len() < BATCH_SIZE
    }

    /// The EKUs waiting for the next batch.
    pub closed spec fn pending_units(&self) -> Seq<Eku> {
        self.pending@
    }

    /// The number of the next batch.
    pub closed spec fn next_batch_seq(&self) -> u64 {
        self.batch_seq
    }

    /// The hash that the next batch follows: SHA-256 of the last root, all
    /// zero before the first batch.
    pub closed spec fn chain_head(&self) -> Seq<u8> {
        self.last_root_hash@
    }

    pub closed spec fn secret_key(&self) -> Seq<u8> {
        self.keypair.secret_key()
    }

    pub closed spec fn public_key(&self) -> Seq<u8> {
        self.keypair.public_key()
    }

    /// A signer with nothing pending, at batch 0, after an all-zero root hash.
    pub fn new(keypair: HopeKeyPair) -> (r: Self)
        ensures
            r.pending_units().len() == 0,
            r.next_batch_seq() == 0,
            r.chain_head() == Seq::new(32, |i: int| 0u8),
            r.secret_key() == keypair.secret_key(),
            r.public_key() == keypair.public_key(),
    {
        let zero: [u8; 32] = [0u8; 32];
        assert(zero@ =~= Seq::new(32, |i: int| 0u8));
        BatchSigner { keypair, pending: Vec::new(), batch_seq: 0, last_root_hash: zero }
    }

    /// The number of EKUs waiting.
    pub fn pending_count(&self) -> (r: usize)
        ensures
            r == self.pending_units().len(),
            r < BATCH_SIZE,
    {
        proof {
            use_type_invariant(self);
        }
        self.pending.len()
    }

    /// Seals `events` as the next batch.
    fn seal(&mut self, events: Vec<Eku>) -> (b: SignedBatch)
        requires
            events@.len() >= 1,
            old(self).batch_seq < u64::MAX,
        ensures
            sealed(
                events@,
                old(self).batch_seq,
                old(self).last_root_hash@,
                old(self).keypair.secret_key(),
                old(self).keypair.public_key(),
                b,
            ),
            final(self).batch_seq == old(self).batch_seq + 1,
            final(self).last_root_hash@ == sha256_digest(b.root@),
            final(self).pending@ == old(self).pending@,
            final(self).keypair == old(self).keypair,
    {
        proof {
            use_type_invariant(&*self);
        }
        let mut leaves: Vec<[u8; 32]> = Vec::new();
        let mut i: usize = 0;
        while i < events.len()
            invariant
                i <= events@.len(),
                leaves@.len() == i,
                forall|j: int| 0 <= j < i ==> #[trigger] leaves@[j]@ == chain_hash_spec(&events@[j]),
            decreases events@.len() - i,
        {
            leaves.push(events[i].chain_hash());
            i = i + 1;
        }
        let tree = MerkleTree::build(leaves).unwrap();
        let prev = self.last_root_hash;
        let mut msg: Vec<u8> = Vec::new();
        push_all(&mut msg, &tree.root);
        push_all(&mut msg, &prev);
        let mut seq_bytes = encode_le(self.batch_seq, 8);
        msg.append(&mut seq_bytes);
        let sig = self.keypair.sign_message(msg.as_slice());
        self.last_root_hash = sha256(&tree.root);
        let b = SignedBatch {
            batch_seq: self.batch_seq,
            root: tree.root,
            prev_root_hash: prev,
            signature: sig,
            eku_count: events.len(),
            tree,
        };
        self.batch_seq = self.batch_seq + 1;
        b
    }

    /// Adds `eku`; when that makes `BATCH_SIZE` EKUs, seals them at once.
    pub fn push(&mut self, eku: Eku) -> (r: Option<SignedBatch>)
        requires
            old(self).pending_units().len() + 1 >= BATCH_SIZE ==> old(self).next_batch_seq() < u64::MAX,
        ensures
            push_step(*old(self), *final(self), eku, r),
    {
        proof {
            use_type_invariant(&*self);
        }
        if self.pending.len() + 1 >= BATCH_SIZE {
            let mut events: Vec<Eku> = Vec::new();
            std::mem::swap(&mut events, &mut self.pending);
            events.push(eku);
            Some(self.seal(events))
        } else {
            let mut waiting: Vec<Eku> = Vec::new();
            std::mem::swap(&mut waiting, &mut self.pending);
            waiting.push(eku);
            self.pending = waiting;
            None
        }
    }

    /// Seals whatever is waiting as a batch at once; `None` when nothing is.
    pub fn flush(&mut self) -> (r: Option<SignedBatch>)
        requires
            old(self).pending_units().len() > 0 ==> old(self).next_batch_seq() < u64::MAX,
        ensures
            flush_step(*old(self), *final(self), r),
    {
        if self.pending.len() == 0 {
            return None;
        }
        let mut events: Vec<Eku> = Vec::new();
        std::mem::swap(&mut events, &mut self.pending);
        Some(self.seal(events))
    }

    /// Whether `batch` follows `prev_root_hash` and its signature is accepted
    /// under this signer's public key.
    pub fn verify_batch(&self, batch: &SignedBatch, prev_root_hash: &[u8; 32]) -> (r: bool)
        ensures
            r == batch_accepted(self.public_key(), *batch, prev_root_hash@),
    {
        if !batch.verify_chain(prev_root_hash) {
            return false;
        }
        let mut msg: Vec<u8> = Vec::new();
        push_all(&mut msg, &batch.root);
        push_all(&mut msg, prev_root_hash);
        let mut seq_bytes = encode_le(batch.batch_seq, 8);
        msg.append(&mut seq_bytes);
        self.keypair.verify_message(msg.as_slice(), &batch.signature)
    }
}

} // verus!
