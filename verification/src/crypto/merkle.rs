//! A binary Merkle authentication tree over opaque byte leaves.
//!
//! The tree is array-backed: node `i`'s children sit at `2i + 1` and `2i + 2`,
//! the root at node 0, and the hashed leaves (padded with an all-zero sentinel
//! up to a power of two) fill the last slots. `verify_proof` is pure: it
//! recomputes a candidate root from a leaf and an audit path alone, so a party
//! that never built the tree can check membership against a root.

use vstd::prelude::*;
use vstd::arithmetic::div_mod::lemma_div_denominator;
use vstd::arithmetic::power2::{
    lemma2_to64, lemma_pow2_adds, lemma_pow2_pos, lemma_pow2_strictly_increases,
    lemma_pow2_subtracts, lemma_pow2_unfold, pow2,
};
use vstd::slice::slice_to_vec;
use sha2::Digest;

verus! {

/// The digest the hash function assigns to a byte string; determined by the
/// bytes alone.
pub uninterp spec fn sha256_of(data: Seq<u8>) -> Seq<u8>;

/// The fixed-width all-zero sentinel used for the empty tree and for padding.
pub open spec fn zero32() -> Seq<u8> {
    Seq::new(32, |i: int| 0u8)
}

/// The sequence of byte views of a sequence of byte vectors.
pub open spec fn byte_rows(s: Seq<Vec<u8>>) -> Seq<Seq<u8>> {
    Seq::new(s.len(), |i: int| s[i]@)
}

/// Relies on `sha2::Sha256::digest`: a 32-byte digest that depends on the
/// input bytes alone.
#[verifier::external_body]
fn sha256(data: &[u8]) -> (r: Vec<u8>)
    ensures
        r@ == sha256_of(data@),
        r@.len() == 32,
{
    sha2::Sha256::digest(data).to_vec()
}

/// A 32-byte vector of zeros.
fn zero_hash() -> (r: Vec<u8>)
    ensures
        r@ == zero32(),
{
    let mut v: Vec<u8> = Vec::new();
    let mut i: usize = 0;
    while i < 32
        invariant
            i <= 32,
            v@.len() == i,
            forall|j: int| 0 <= j < i ==> v@[j] == 0u8,
        decreases 32 - i,
    {
        v.push(0u8);
        i += 1;
    }
    proof {
        assert(v@ =~= zero32());
    }
    v
}

/// The concatenation of two byte strings.
fn concat_bytes(a: &[u8], b: &[u8]) -> (r: Vec<u8>)
    ensures
        r@ == a@ + b@,
{
    let mut v: Vec<u8> = slice_to_vec(a);
    let mut i: usize = 0;
    while i < b.len()
        invariant
            i <= b@.len(),
            v@ == a@ + b@.take(i as int),
        decreases b@.len() - i,
    {
        v.push(b[i]);
        proof {
            assert(a@ + b@.take(i + 1 as int) =~= (a@ + b@.take(i as int)).push(b@[i as int]));
        }
        i += 1;
    }
    proof {
        assert(b@.take(b@.len() as int) =~= b@);
    }
    v
}

/// The hash of the concatenation of two byte strings.
fn hash_pair(a: &[u8], b: &[u8]) -> (r: Vec<u8>)
    ensures
        r@ == sha256_of(a@ + b@),
        r@.len() == 32,
{
    let joined = concat_bytes(a, b);
    sha256(joined.as_slice())
}

/// Byte-string equality.
fn bytes_eq(a: &[u8], b: &[u8]) -> (r: bool)
    ensures
        r == (a@ == b@),
{
    if a.len() != b.len() {
        proof {
            assert(a@.len() != b@.len());
        }
        return false;
    }
    let mut i: usize = 0;
    while i < a.len()
        invariant
            i <= a@.len(),
            a@.len() == b@.len(),
            forall|j: int| 0 <= j < i ==> a@[j] == b@[j],
        decreases a@.len() - i,
    {
        if a[i] != b[i] {
            return false;
        }
        i += 1;
    }
    proof {
        assert(a@ =~= b@);
    }
    true
}

/// The number of leaf slots the tree really allocates: the smallest power of
/// two that is at least `n`, and at least one.
pub open spec fn padded_count_of(n: nat) -> nat
    decreases n,
{
    if n <= 1 {
        1
    } else {
        2 * padded_count_of(((n + 1) / 2) as nat)
    }
}

/// Bounds on the padded leaf count, and that it is a power of two.
proof fn lemma_padded_bounds(n: nat)
    ensures
        padded_count_of(n) >= 1,
        padded_count_of(n) >= n,
        n >= 2 ==> padded_count_of(n) <= 2 * (n - 1),
        exists|k: nat| padded_count_of(n) == pow2(k),
    decreases n,
{
    if n <= 1 {
        lemma2_to64();
        assert(padded_count_of(n) == pow2(0));
    } else {
        let m = ((n + 1) / 2) as nat;
        lemma_padded_bounds(m);
        let k = choose|k: nat| padded_count_of(m) == pow2(k);
        lemma_pow2_unfold((k + 1) as nat);
        assert(padded_count_of(n) == pow2((k + 1) as nat));
    }
}

/// The hashed leaves, padded with the zero sentinel to the allocated width.
pub open spec fn padded_leaf_hashes(leaves: Seq<Seq<u8>>) -> Seq<Seq<u8>> {
    Seq::new(
        padded_count_of(leaves.len()),
        |i: int|
            if i < leaves.len() {
                sha256_of(leaves[i])
            } else {
                zero32()
            },
    )
}

/// The hash standing at array position `i` of the tree whose padded leaf
/// hashes are `ph`: a leaf slot holds its hash, an internal slot the hash of
/// its two children's values joined.
pub open spec fn node_val(ph: Seq<Seq<u8>>, i: int) -> Seq<u8>
    decreases 2 * ph.len() - i,
        when 0 <= i
{
    let p = ph.len() as int;
    if i >= p - 1 {
        ph[i - (p - 1)]
    } else {
        sha256_of(node_val(ph, 2 * i + 1) + node_val(ph, 2 * i + 2))
    }
}

/// The root the tree with the given leaves commits to. With no leaves this is
/// the all-zero sentinel.
pub open spec fn merkle_root_of(leaves: Seq<Seq<u8>>) -> Seq<u8> {
    node_val(padded_leaf_hashes(leaves), 0)
}

/// One verification step: the current hash is joined with its sibling, on the
/// side the position's parity dictates.
pub open spec fn combine_hash(h: Seq<u8>, sib: Seq<u8>, idx: int) -> Seq<u8> {
    if idx % 2 == 0 {
        sha256_of(h + sib)
    } else {
        sha256_of(sib + h)
    }
}

/// The candidate root recomputed from a starting hash, an audit path, and a
/// leaf position.
pub open spec fn climb(h: Seq<u8>, path: Seq<Seq<u8>>, idx: int) -> Seq<u8>
    decreases path.len(),
{
    if path.len() == 0 {
        h
    } else {
        climb(combine_hash(h, path[0], idx), path.drop_first(), idx / 2)
    }
}

/// What `MerkleTree::verify_proof` decides: the root recomputed from the leaf
/// and the audit path matches the claimed root.
pub open spec fn proof_checks(root: Seq<u8>, leaf: Seq<u8>, path: Seq<Seq<u8>>, idx: int) -> bool {
    climb(sha256_of(leaf), path, idx) == root
}

/// The number of levels between the leaves and the root: the audit path's
/// length. A single-leaf (or empty) tree has height zero.
pub open spec fn height_of(p: nat) -> nat
    decreases p,
{
    if p <= 1 {
        0
    } else {
        1 + height_of((p / 2) as nat)
    }
}

/// The array position of the sibling standing next to the path from leaf
/// `index`, `k` levels above the bottom, in a tree over `n` leaves.
pub open spec fn sibling_slot(n: nat, index: nat, k: nat) -> int {
    let size = padded_count_of(n) as int / pow2(k) as int;
    let idx = index as int / pow2(k) as int;
    if idx % 2 == 0 {
        size - 1 + idx + 1
    } else {
        size - 1 + idx - 1
    }
}

/// The path is exactly the ordered bottom-up sequence of sibling hashes on
/// the way from leaf `index` to the root: its length is the tree's height,
/// and element `k` is the value the tree holds at the sibling slot of level
/// `k`.
pub open spec fn is_audit_path(leaves: Seq<Seq<u8>>, index: int, path: Seq<Seq<u8>>) -> bool {
    &&& path.len() == height_of(padded_count_of(leaves.len()))
    &&& forall|k: int|
        0 <= k < path.len() ==> #[trigger] path[k] == node_val(
            padded_leaf_hashes(leaves),
            sibling_slot(leaves.len(), index as nat, k as nat),
        )
}

/// The height of a power-of-two width is its exponent.
proof fn lemma_height_of_pow2(k: nat)
    ensures
        height_of(pow2(k)) == k,
    decreases k,
{
    lemma2_to64();
    if k > 0 {
        lemma_pow2_unfold(k);
        lemma_pow2_pos((k - 1) as nat);
        assert(pow2(k) / 2 == pow2((k - 1) as nat));
        lemma_height_of_pow2((k - 1) as nat);
    }
}

/// Appending one sibling to a path combines it onto the climbed value at the
/// position reached after the existing path.
proof fn lemma_climb_push(h: Seq<u8>, path: Seq<Seq<u8>>, x: Seq<u8>, idx: int)
    requires
        idx >= 0,
    ensures
        climb(h, path.push(x), idx) == combine_hash(
            climb(h, path, idx),
            x,
            idx / pow2(path.len()) as int,
        ),
    decreases path.len(),
{
    lemma_pow2_pos(path.len());
    lemma2_to64();
    if path.len() == 0 {
        let step = combine_hash(h, x, idx);
        assert(path.push(x).drop_first() =~= Seq::<Seq<u8>>::empty());
        assert(path.push(x)[0] == x);
        assert(climb(step, Seq::<Seq<u8>>::empty(), idx / 2) == step);
        assert(climb(h, path.push(x), idx) == climb(step, path.push(x).drop_first(), idx / 2));
        assert(idx / 1 == idx);
        assert(pow2(0) == 1);
    } else {
        assert(path.push(x).drop_first() =~= path.drop_first().push(x));
        assert(path.push(x)[0] == path[0]);
        lemma_climb_push(combine_hash(h, path[0], idx), path.drop_first(), x, idx / 2);
        lemma_pow2_pos((path.len() - 1) as nat);
        lemma_pow2_adds(1, (path.len() - 1) as nat);
        lemma_div_denominator(idx, 2, pow2((path.len() - 1) as nat) as int);
        assert(2 * pow2((path.len() - 1) as nat) == pow2(path.len()));
        assert((idx / 2) / pow2((path.len() - 1) as nat) as int == idx / pow2(path.len()) as int);
    }
}

/// Failure of a Merkle tree operation.
#[derive(Clone, Copy, Debug, PartialEq, Eq, Structural)]
pub enum MerkleError {
    /// An audit path was requested for a leaf index outside the tree.
    IndexOutOfRange,
}

/// A complete binary hash tree over `leaf_count` opaque byte leaves.
#[derive(Clone)]
pub struct MerkleTree {
    nodes: Vec<Vec<u8>>,
    leaf_count: usize,
    padded_count: usize,
    leaves: Ghost<Seq<Seq<u8>>>,
}

impl View for MerkleTree {
    type V = Seq<Seq<u8>>;

    closed spec fn view(&self) -> Seq<Seq<u8>> {
        self.leaves@
    }
}

impl MerkleTree {
    /// The structural invariant: every slot of the node array holds exactly
    /// the hash the tree shape dictates for the committed leaves.
    pub closed spec fn wf(self) -> bool {
        &&& self.leaves@.len() == self.leaf_count
        &&& self.padded_count == padded_count_of(self.leaf_count as nat)
        &&& self.nodes@.len() == 2 * self.padded_count - 1
        &&& forall|j: int|
            0 <= j < self.nodes@.len() ==> (#[trigger] self.nodes@[j])@ == node_val(
                padded_leaf_hashes(self.leaves@),
                j,
            )
        &&& forall|j: int| 0 <= j < self.nodes@.len() ==> (#[trigger] self.nodes@[j])@.len() == 32
    }

    /// The number of leaves the tree was built over.
    pub fn leaf_count(&self) -> (r: usize)
        requires
            self.wf(),
        ensures
            r == self@.len(),
    {
        self.leaf_count
    }

    /// The number of slots in the backing node array.
    pub fn node_count(&self) -> (r: usize)
        requires
            self.wf(),
        ensures
            r == 2 * padded_count_of(self@.len()) - 1,
            self@.len() == 0 ==> r == 1,
    {
        self.nodes.len()
    }

    /// The bytes held at one slot of the backing node array.
    pub fn node_at(&self, i: usize) -> (r: Vec<u8>)
        requires
            self.wf(),
            i < 2 * padded_count_of(self@.len()) - 1,
        ensures
            r@ == node_val(padded_leaf_hashes(self@), i as int),
            r@.len() == 32,
    {
        slice_to_vec(self.nodes[i].as_slice())
    }

    /// Build the tree: hash each leaf, pad with the zero sentinel to a power
    /// of two, then fold pairwise bottom-up. With no leaves the root is the
    /// sentinel itself.
    pub fn new(leaves: Vec<Vec<u8>>) -> (r: Self)
        requires
            leaves@.len() <= usize::MAX / 4,
        ensures
            r.wf(),
            r@ == byte_rows(leaves@),
    {
        let ghost lv = byte_rows(leaves@);
        let ghost ph = padded_leaf_hashes(lv);
        let n = leaves.len();
        proof {
            lemma_padded_bounds(n as nat);
        }
        let p = padded_count(n);
        let total = 2 * p - 1;
        let mut nodes: Vec<Vec<u8>> = Vec::new();
        let mut j: usize = 0;
        while j < total
            invariant
                j <= total,
                nodes@.len() == j,
                forall|t: int| 0 <= t < j ==> (#[trigger] nodes@[t])@ == zero32(),
                forall|t: int| 0 <= t < j ==> (#[trigger] nodes@[t])@.len() == 32,
            decreases total - j,
        {
            nodes.push(zero_hash());
            j += 1;
        }
        let mut i: usize = 0;
        while i < n
            invariant
                i <= n,
                n == leaves@.len(),
                n == lv.len(),
                lv == byte_rows(leaves@),
                p == padded_count_of(n as nat),
                p >= 1,
                p >= n,
                total == 2 * p - 1,
                nodes@.len() == total,
                ph == padded_leaf_hashes(lv),
                forall|t: int|
                    p - 1 + i <= t < total ==> (#[trigger] nodes@[t])@ == zero32(),
                forall|t: int|
                    p - 1 <= t < p - 1 + i ==> (#[trigger] nodes@[t])@ == ph[t - (p - 1)],
                forall|t: int| 0 <= t < total ==> (#[trigger] nodes@[t])@.len() == 32,
            decreases n - i,
        {
            let h = sha256(leaves[i].as_slice());
            nodes.set(p - 1 + i, h);
            proof {
                assert(lv[i as int] == leaves@[i as int]@);
            }
            i += 1;
        }
        proof {
            assert(ph.len() == p);
            assert forall|t: int| p - 1 <= t < total implies (#[trigger] nodes@[t])@ == node_val(
                ph,
                t,
            ) by {
                assert(node_val(ph, t) == ph[t - (p - 1)]);
                if t >= p - 1 + n {
                    assert(ph[t - (p - 1)] == zero32());
                }
            }
        }
        let mut t: usize = p - 1;
        while t > 0
            invariant
                t <= p - 1,
                p >= 1,
                total == 2 * p - 1,
                nodes@.len() == total,
                ph == padded_leaf_hashes(lv),
                ph.len() == p,
                forall|j: int| t <= j < total ==> (#[trigger] nodes@[j])@ == node_val(ph, j),
                forall|j: int| 0 <= j < total ==> (#[trigger] nodes@[j])@.len() == 32,
            decreases t,
        {
            t -= 1;
            let h = hash_pair(nodes[2 * t + 1].as_slice(), nodes[2 * t + 2].as_slice());
            nodes.set(t, h);
            proof {
                assert(node_val(ph, t as int) == sha256_of(
                    node_val(ph, 2 * t + 1) + node_val(ph, 2 * t + 2),
                ));
            }
        }
        let r = MerkleTree { nodes, leaf_count: n, padded_count: p, leaves: Ghost(lv) };
        proof {
            assert(r@ == byte_rows(leaves@));
        }
        r
    }

    /// The committed root: a digest of fixed 32-byte width.
    pub fn root(&self) -> (r: Vec<u8>)
        requires
            self.wf(),
        ensures
            r@ == merkle_root_of(self@),
            r@.len() == 32,
    {
        slice_to_vec(self.nodes[0].as_slice())
    }

    /// The audit path for one leaf: exactly the ordered sequence of sibling
    /// hashes from that leaf up to, but not including, the root, and a path
    /// that authenticates the leaf against the committed root. Callers must
    /// validate the index range before asking.
    pub fn generate_proof(&self, index: usize) -> (r: Vec<Vec<u8>>)
        requires
            self.wf(),
            index < self@.len(),
        ensures
            proof_checks(merkle_root_of(self@), self@[index as int], byte_rows(r@), index as int),
            is_audit_path(self@, index as int, byte_rows(r@)),
    {
        let ghost ph = padded_leaf_hashes(self@);
        proof {
            lemma_padded_bounds(self@.len());
        }
        let ghost kk = choose|k: nat| padded_count_of(self@.len()) == pow2(k);
        let total = self.nodes.len();
        proof {
            assert(total == 2 * self.padded_count - 1);
        }
        let mut proof_vec: Vec<Vec<u8>> = Vec::new();
        let mut size: usize = self.padded_count;
        let mut idx: usize = index;
        let mut cur: usize = self.padded_count - 1 + index;
        let ghost mut lvl: nat = 0nat;
        proof {
            lemma2_to64();
            assert(climb(sha256_of(self@[index as int]), byte_rows(proof_vec@), index as int)
                == sha256_of(self@[index as int]));
            assert(node_val(ph, cur as int) == ph[index as int]);
            assert(ph[index as int] == sha256_of(self@[index as int]));
        }
        while size > 1
            invariant
                self.wf(),
                index < self@.len(),
                ph == padded_leaf_hashes(self@),
                ph.len() == self.padded_count,
                lvl <= kk,
                size == pow2((kk - lvl) as nat),
                pow2(kk) == self.padded_count,
                size <= self.padded_count,
                proof_vec@.len() == lvl,
                idx == index as int / pow2(lvl) as int,
                idx < size,
                cur == size - 1 + idx,
                total == self.nodes@.len(),
                cur < total,
                climb(sha256_of(self@[index as int]), byte_rows(proof_vec@), index as int)
                    == node_val(ph, cur as int),
                forall|t: int|
                    0 <= t < lvl ==> (#[trigger] proof_vec@[t])@ == node_val(
                        ph,
                        sibling_slot(self@.len(), index as nat, t as nat),
                    ),
            decreases size,
        {
            proof {
                lemma2_to64();
                // the current level is above the bottom, so its width is even
                assert((kk - lvl) as nat >= 1) by {
                    if kk == lvl {
                        assert(size == pow2(0));
                    }
                }
                lemma_pow2_unfold((kk - lvl) as nat);
            }
            let sib: usize = if cur % 2 == 0 {
                cur - 1
            } else {
                cur + 1
            };
            proof {
                assert(sib < self.nodes@.len());
            }
            let sib_node = slice_to_vec(self.nodes[sib].as_slice());
            proof {
                let leaf_hash = sha256_of(self@[index as int]);
                let br = byte_rows(proof_vec@);
                lemma_climb_push(leaf_hash, br, self.nodes@[sib as int]@, index as int);
                assert(byte_rows(proof_vec@.push(sib_node)) =~= br.push(self.nodes@[
                    sib as int]@));
                // the parent slot holds the hash of its two children joined
                let parent = (cur - 1) as int / 2;
                assert(parent < ph.len() - 1);
                assert(node_val(ph, parent) == sha256_of(
                    node_val(ph, 2 * parent + 1) + node_val(ph, 2 * parent + 2),
                ));
                if idx % 2 == 0 {
                    assert(2 * parent + 1 == cur);
                    assert(2 * parent + 2 == sib);
                } else {
                    assert(2 * parent + 1 == sib);
                    assert(2 * parent + 2 == cur);
                }
                assert(idx == index as int / pow2(lvl) as int);
                assert(combine_hash(node_val(ph, cur as int), node_val(ph, sib as int), idx as int)
                    == node_val(ph, parent));
                // the chosen slot is the sibling slot of this level
                lemma_pow2_subtracts(lvl, kk);
                assert(padded_count_of(self@.len()) as int / pow2(lvl) as int == size);
                assert(sib == sibling_slot(self@.len(), index as nat, lvl));
                // the index at the next level is the quotient by the doubled stride
                lemma_pow2_pos(lvl);
                lemma_pow2_adds(lvl, 1);
                lemma_pow2_unfold((lvl + 1) as nat);
                lemma_div_denominator(index as int, pow2(lvl) as int, 2);
            }
            proof_vec.push(sib_node);
            cur = (cur - 1) / 2;
            idx = idx / 2;
            size = size / 2;
            proof {
                lvl = lvl + 1;
                assert(size == pow2((kk - lvl) as nat));
            }
        }
        proof {
            lemma2_to64();
            assert(idx == 0);
            assert(cur == 0);
            assert(lvl == kk) by {
                if lvl < kk {
                    lemma_pow2_strictly_increases(0, (kk - lvl) as nat);
                }
            }
            lemma_height_of_pow2(kk);
            assert(byte_rows(proof_vec@).len() == height_of(padded_count_of(self@.len())));
            assert forall|k: int| 0 <= k < byte_rows(proof_vec@).len() implies #[trigger] byte_rows(
                proof_vec@,
            )[k] == node_val(
                padded_leaf_hashes(self@),
                sibling_slot(self@.len(), index as nat, k as nat),
            ) by {
                assert(byte_rows(proof_vec@)[k] == proof_vec@[k]@);
            }
        }
        proof_vec
    }

    /// The audit path for one leaf, with an out-of-range index reported
    /// rather than answered with an ambiguous empty path.
    pub fn try_generate_proof(&self, index: usize) -> (r: Result<Vec<Vec<u8>>, MerkleError>)
        requires
            self.wf(),
        ensures
            (r is Err) <==> index >= self@.len(),
            r is Err ==> r == Result::<Vec<Vec<u8>>, MerkleError>::Err(MerkleError::IndexOutOfRange),
            r is Ok ==> proof_checks(
                merkle_root_of(self@),
                self@[index as int],
                byte_rows(r.unwrap()@),
                index as int,
            ),
            r is Ok ==> is_audit_path(self@, index as int, byte_rows(r.unwrap()@)),
    {
        if index >= self.leaf_count {
            return Err(MerkleError::IndexOutOfRange);
        }
        Ok(self.generate_proof(index))
    }

    /// Recompute a candidate root from a leaf's bytes and an audit path,
    /// branching on the position's parity at every level, and compare it with
    /// the claimed root. Pure: the tree instance is never consulted.
    pub fn verify_proof(root: &[u8], leaf: &[u8], proof: &[Vec<u8>], index: usize) -> (r: bool)
        ensures
            r == proof_checks(root@, leaf@, byte_rows(proof@), index as int),
    {
        let mut current: Vec<u8> = sha256(leaf);
        let mut ci: usize = index;
        let mut k: usize = 0;
        proof {
            lemma2_to64();
            assert(byte_rows(proof@).take(0) =~= Seq::<Seq<u8>>::empty());
        }
        while k < proof.len()
            invariant
                k <= proof@.len(),
                current@ == climb(sha256_of(leaf@), byte_rows(proof@).take(k as int), index as int),
                ci == index as int / pow2(k as nat) as int,
            decreases proof@.len() - k,
        {
            let sib = &proof[k];
            let next = if ci % 2 == 0 {
                hash_pair(current.as_slice(), sib.as_slice())
            } else {
                hash_pair(sib.as_slice(), current.as_slice())
            };
            proof {
                let br = byte_rows(proof@);
                lemma_climb_push(sha256_of(leaf@), br.take(k as int), br[k as int], index as int);
                assert(br.take(k as int).push(br[k as int]) =~= br.take(k + 1 as int));
                lemma_pow2_pos(k as nat);
                lemma_pow2_adds(k as nat, 1);
                lemma_pow2_unfold((k + 1) as nat);
                lemma_div_denominator(index as int, pow2(k as nat) as int, 2);
            }
            current = next;
            ci = ci / 2;
            k += 1;
        }
        proof {
            assert(byte_rows(proof@).take(proof@.len() as int) =~= byte_rows(proof@));
        }
        bytes_eq(current.as_slice(), root)
    }
}

/// The smallest power of two at least `max(n, 1)`.
fn padded_count(n: usize) -> (r: usize)
    requires
        n <= usize::MAX / 4,
    ensures
        r == padded_count_of(n as nat),
    decreases n,
{
    if n <= 1 {
        1
    } else {
        proof {
            lemma_padded_bounds(((n + 1) / 2) as nat);
        }
        2 * padded_count((n + 1) / 2)
    }
}

} // verus!
