//! Merkle-tree commitments over an ordered sequence of leaf digests.
//!
//! The leaf sequence is padded on the right with a deterministic,
//! tag-derived empty-node digest until its length is a power of two,
//! then adjacent pairs are combined with the tagged hash of their
//! concatenation, round after round, until a single root remains.  A
//! one-leaf sequence needs no combination round: its root is the tagged
//! hash of that single leaf.  Leaf order is part of the commitment's
//! meaning, so callers must present leaves in their canonical order.

use vstd::prelude::*;
use crate::tagged_hash::{tagged_hash, tagged_hash_of, digest_eq, digest_to_vec, push_digest};

verus! {

/// Whether `n` is a power of two.
pub open spec fn is_pow2(n: nat) -> bool
    decreases n,
{
    if n == 0 {
        false
    } else if n == 1 {
        true
    } else {
        n % 2 == 0 && is_pow2(n / 2)
    }
}

/// The smallest power of two that is at least `n` (and at least one).
pub open spec fn pow2_ceil(n: nat) -> nat
    decreases n,
{
    if n <= 1 {
        1
    } else {
        2 * pow2_ceil((n + 1) / 2)
    }
}

/// The padded length is a power of two no smaller than the leaf count.
pub proof fn lemma_pow2_ceil_bounds(n: nat)
    ensures
        pow2_ceil(n) >= n,
        pow2_ceil(n) >= 1,
        is_pow2(pow2_ceil(n)),
        n >= 2 ==> pow2_ceil(n) <= 2 * n - 2,
    decreases n,
{
    if n <= 1 {
    } else {
        let m = (n + 1) / 2;
        lemma_pow2_ceil_bounds(m);
        assert(2 * m >= n);
        assert(is_pow2(2 * pow2_ceil(m)));
        if n >= 4 {
            assert(m >= 2);
            assert(pow2_ceil(m) <= 2 * m - 2);
            assert(2 * pow2_ceil(m) <= 4 * m - 4);
            assert(4 * m <= 2 * (n + 1));
        } else if n == 2 {
            assert(pow2_ceil(2nat) == 2);
        } else {
            assert(n == 3);
            assert(pow2_ceil(3nat) == 2 * pow2_ceil(2nat));
            assert(pow2_ceil(3nat) == 4);
        }
    }
}

/// No smaller power of two reaches `n`: `pow2_ceil` is minimal.
pub proof fn lemma_pow2_ceil_min(n: nat, m: nat)
    requires
        is_pow2(m),
        m >= n,
    ensures
        pow2_ceil(n) <= m,
    decreases n,
{
    if n <= 1 {
        assert(m >= 1);
    } else {
        assert(m >= 2);
        assert(m % 2 == 0 && is_pow2(m / 2));
        if n % 2 == 1 {
            assert(m >= n + 1);
        }
        assert(m / 2 >= (n + 1) / 2);
        lemma_pow2_ceil_min((n + 1) / 2, m / 2);
    }
}

/// Of two powers of two, the smaller is at most half the larger.
pub proof fn lemma_pow2_ordered(a: nat, b: nat)
    requires
        is_pow2(a),
        is_pow2(b),
        a < b,
    ensures
        2 * a <= b,
    decreases b,
{
    if a == 1 {
        assert(b >= 2);
        assert(b % 2 == 0);
    } else {
        assert(a % 2 == 0 && is_pow2(a / 2));
        assert(b % 2 == 0 && is_pow2(b / 2));
        lemma_pow2_ordered(a / 2, b / 2);
    }
}

/// Padding a sequence whose length is already a power of two is a no-op.
pub proof fn lemma_pow2_ceil_noop(n: nat)
    requires
        is_pow2(n),
    ensures
        pow2_ceil(n) == n,
{
    lemma_pow2_ceil_bounds(n);
    lemma_pow2_ceil_min(n, n);
}

/// Computes the smallest power of two that is at least `n`.
pub fn pow2_ceil_exec(n: usize) -> (r: usize)
    requires
        n < usize::MAX / 2,
    ensures
        r as nat == pow2_ceil(n as nat),
        r >= n,
        r >= 1,
{
    proof {
        lemma_pow2_ceil_bounds(n as nat);
    }
    let mut p: usize = 1;
    while p < n
        invariant
            n < usize::MAX / 2,
            p >= 1,
            is_pow2(p as nat),
            p as nat <= pow2_ceil(n as nat),
        decreases 2 * n - p,
    {
        proof {
            lemma_pow2_ceil_bounds(n as nat);
            lemma_pow2_ordered(p as nat, pow2_ceil(n as nat));
        }
        p = p * 2;
    }
    proof {
        lemma_pow2_ceil_min(n as nat, p as nat);
    }
    p
}

/// A node of a Merkle tree: a 32-byte tagged digest.
#[derive(Clone, Copy, Debug, PartialEq, Eq)]
pub struct MerkleNode(pub [u8; 32]);

impl View for MerkleNode {
    type V = Seq<u8>;

    open spec fn view(&self) -> Seq<u8> {
        self.0@
    }
}

impl crate::commit::VerifyEq for MerkleNode {
    fn verify_eq(&self, other: &Self) -> (r: bool) {
        digest_eq(&self.0, &other.0)
    }
}

impl MerkleNode {
    /// Wraps raw digest bytes as a node.
    pub fn from_bytes(bytes: [u8; 32]) -> (r: Self)
        ensures
            r@ == bytes@,
    {
        MerkleNode(bytes)
    }

    /// The digest bytes of this node.
    pub fn to_bytes(&self) -> (r: [u8; 32])
        ensures
            r@ == self@,
    {
        self.0
    }
}

/// The views of a sequence of nodes.
pub open spec fn node_views(s: Seq<MerkleNode>) -> Seq<Seq<u8>> {
    s.map_values(|n: MerkleNode| n@)
}

/// The tag-derived digest that pads a leaf sequence up to a power of
/// two: the tagged hash of the empty payload.
pub open spec fn empty_node_of(tag: Seq<u8>) -> Seq<u8> {
    tagged_hash_of(tag, Seq::<u8>::empty())
}

/// The digest the combination rounds leave of a sequence whose length
/// is a power of two: a single digest stands as it is, and the two
/// halves' results are combined by the tagged hash of their
/// concatenation, so adjacent pairs merge round after round.
pub open spec fn merkle_pow2_root_of(tag: Seq<u8>, s: Seq<Seq<u8>>) -> Seq<u8>
    decreases s.len(),
{
    if s.len() <= 1 {
        if s.len() == 1 {
            s[0]
        } else {
            empty_node_of(tag)
        }
    } else {
        let half = s.len() as int / 2;
        tagged_hash_of(tag, merkle_pow2_root_of(tag, s.take(half)) + merkle_pow2_root_of(tag, s.skip(half)))
    }
}

/// The leaf sequence padded on the right with empty nodes up to the
/// next power of two.
pub open spec fn padded_leaves_of(tag: Seq<u8>, leaves: Seq<Seq<u8>>) -> Seq<Seq<u8>> {
    leaves + Seq::new((pow2_ceil(leaves.len()) - leaves.len()) as nat, |i: int| empty_node_of(tag))
}

/// The Merkle root committed to by an ordered leaf sequence under
/// `tag`: the padded sequence combined pairwise down to one digest.  A
/// tree of depth zero (one padded leaf) has no combination round: its
/// root is the tagged hash of that single leaf.
pub open spec fn merkle_root_of(tag: Seq<u8>, leaves: Seq<Seq<u8>>) -> Seq<u8> {
    let padded = padded_leaves_of(tag, leaves);
    if padded.len() == 1 {
        tagged_hash_of(tag, padded[0])
    } else {
        merkle_pow2_root_of(tag, padded)
    }
}

/// A one-leaf sequence's root is the tagged hash of that single leaf:
/// no combination round takes place.
pub proof fn lemma_single_leaf_root(tag: Seq<u8>, leaf: Seq<u8>)
    ensures
        merkle_root_of(tag, seq![leaf]) == tagged_hash_of(tag, leaf),
{
    assert(pow2_ceil(1nat) == 1);
    assert(padded_leaves_of(tag, seq![leaf]) =~= seq![leaf]);
}

/// Padding a leaf sequence whose length is already a power of two
/// changes nothing: the root is computed over the leaves as given.
pub proof fn lemma_padding_noop(tag: Seq<u8>, leaves: Seq<Seq<u8>>)
    requires
        is_pow2(leaves.len()),
    ensures
        padded_leaves_of(tag, leaves) == leaves,
        leaves.len() >= 2 ==> merkle_root_of(tag, leaves) == merkle_pow2_root_of(tag, leaves),
{
    lemma_pow2_ceil_noop(leaves.len());
    assert(padded_leaves_of(tag, leaves) =~= leaves);
}

/// Combines the `len` nodes starting at `start` into their root.
fn merkle_range(tag: &Vec<u8>, nodes: &Vec<MerkleNode>, start: usize, len: usize) -> (r: MerkleNode)
    requires
        start + len <= nodes@.len(),
        len >= 1,
        is_pow2(len as nat),
    ensures
        r@ == merkle_pow2_root_of(tag@, node_views(nodes@).subrange(start as int, start as int + len)),
    decreases len,
{
    let ghost range = node_views(nodes@).subrange(start as int, start as int + len);
    if len == 1 {
        proof {
            assert(range[0] == nodes@[start as int]@);
        }
        nodes[start]
    } else {
        let half = len / 2;
        let total = nodes.len();
        proof {
            assert(len as nat % 2 == 0 && is_pow2(len as nat / 2));
            assert(start + half <= total);
        }
        let left = merkle_range(tag, nodes, start, half);
        let right = merkle_range(tag, nodes, start + half, half);
        let mut buf: Vec<u8> = Vec::new();
        push_digest(&mut buf, &left.0);
        push_digest(&mut buf, &right.0);
        let d = tagged_hash(tag, &buf);
        proof {
            let h = range.len() as int / 2;
            assert(range.take(h) =~= node_views(nodes@).subrange(start as int, start as int + half));
            assert(range.skip(h) =~= node_views(nodes@).subrange(start as int + half, start as int + len));
            assert(buf@ =~= left@ + right@);
        }
        MerkleNode(d)
    }
}

/// Computes the Merkle root of the ordered leaf sequence under `tag`:
/// pads the leaves with the tag-derived empty node up to the next power
/// of two, then combines adjacent pairs with the tagged hash of their
/// concatenation until one digest remains.
pub fn merklize(tag: &Vec<u8>, leaves: &Vec<MerkleNode>) -> (r: MerkleNode)
    requires
        leaves@.len() < usize::MAX / 2,
    ensures
        r@ == merkle_root_of(tag@, node_views(leaves@)),
{
    let n = leaves.len();
    let cap = pow2_ceil_exec(n);
    let mut nodes: Vec<MerkleNode> = Vec::new();
    let mut i: usize = 0;
    while i < n
        invariant
            i <= n,
            n == leaves@.len(),
            nodes@ == leaves@.subrange(0, i as int),
        decreases n - i,
    {
        nodes.push(leaves[i]);
        proof {
            assert(nodes@ =~= leaves@.subrange(0, i + 1));
        }
        i = i + 1;
    }
    proof {
        assert(nodes@ =~= leaves@);
    }
    let empty_payload: Vec<u8> = Vec::new();
    let empty = MerkleNode(tagged_hash(tag, &empty_payload));
    proof {
        assert(empty@ == empty_node_of(tag@));
    }
    while nodes.len() < cap
        invariant
            n <= nodes@.len() <= cap,
            nodes@.subrange(0, n as int) == leaves@,
            forall|j: int| n <= j < nodes@.len() ==> nodes@[j]@ == empty_node_of(tag@),
            empty@ == empty_node_of(tag@),
            cap as nat == pow2_ceil(n as nat),
        decreases cap - nodes@.len(),
    {
        nodes.push(empty);
        proof {
            assert(nodes@.subrange(0, n as int) =~= leaves@);
        }
    }
    proof {
        lemma_pow2_ceil_bounds(n as nat);
        assert(node_views(nodes@) =~= padded_leaves_of(tag@, node_views(leaves@)));
        assert(is_pow2(cap as nat));
    }
    if cap == 1 {
        let leaf = digest_to_vec(&nodes[0].0);
        let d = tagged_hash(tag, &leaf);
        proof {
            assert(node_views(nodes@)[0] == nodes@[0]@);
        }
        return MerkleNode(d);
    }
    let root = merkle_range(tag, &nodes, 0, cap);
    proof {
        assert(node_views(nodes@).subrange(0, cap as int) =~= node_views(nodes@));
    }
    root
}

/// One canonical ordered leaf sequence, produced by a domain type's
/// [`ToMerkleSource`] adapter and consumed by [`merklize`].
pub struct MerkleSource {
    /// The leaves, already in their canonical order.
    pub leaves: Vec<MerkleNode>,
}

impl MerkleSource {
    /// The views of the ordered leaves.
    pub open spec fn leaves_spec(&self) -> Seq<Seq<u8>> {
        node_views(self.leaves@)
    }

    /// Commits to the ordered leaves under `tag`.
    pub fn commit(&self, tag: &Vec<u8>) -> (r: MerkleNode)
        requires
            self.leaves@.len() < usize::MAX / 2,
        ensures
            r@ == merkle_root_of(tag@, self.leaves_spec()),
    {
        merklize(tag, &self.leaves)
    }
}

/// Canonicalization contract: a domain collection converts into one
/// ordered leaf sequence, the single authority for leaf order, so that
/// independent implementations agree on the Merkle root.
pub trait ToMerkleSource {
    /// The canonical ordered leaf sequence this value commits to.
    spec fn merkle_source_spec(&self) -> Seq<Seq<u8>>;

    /// Produces the canonical ordered leaf sequence.
    fn to_merkle_source(&self) -> (r: MerkleSource)
        ensures
            r.leaves_spec() == self.merkle_source_spec(),
    ;
}

} // verus!
