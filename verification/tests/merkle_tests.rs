//! Tests of the Merkle-tree commitment construction.

use commit_verify::{merklize, MerkleNode, TaggedHash};

fn node(seed: u8) -> MerkleNode {
    let mut d = [0u8; 32];
    let mut i = 0usize;
    while i < 32 {
        d[i] = seed.wrapping_mul(31).wrapping_add(i as u8);
        i += 1;
    }
    MerkleNode::from_bytes(d)
}

#[test]
fn single_leaf_root_is_tagged_hash_of_leaf() {
    // One leaf: no combination round, the root is the tagged hash of
    // that single leaf.
    let tag = b"merkle-test".to_vec();
    let leaf = node(5);
    let root = merklize(&tag, &vec![leaf]);
    let th = TaggedHash::new(tag);
    let expected = th.hash(&leaf.to_bytes().to_vec());
    assert_eq!(root.to_bytes(), expected);
}

#[test]
fn two_leaf_root_combines_the_pair() {
    let tag = b"merkle-test".to_vec();
    let (a, b) = (node(1), node(2));
    let root = merklize(&tag, &vec![a, b]);
    let th = TaggedHash::new(tag);
    let mut buf = a.to_bytes().to_vec();
    buf.extend_from_slice(&b.to_bytes());
    assert_eq!(root.to_bytes(), th.hash(&buf));
}

#[test]
fn merklize_is_deterministic() {
    let tag = b"merkle-test".to_vec();
    let leaves = vec![node(1), node(2), node(3)];
    assert_eq!(merklize(&tag, &leaves), merklize(&tag, &leaves));
}

#[test]
fn merklize_is_order_sensitive() {
    let tag = b"merkle-test".to_vec();
    let root_ab = merklize(&tag, &vec![node(1), node(2)]);
    let root_ba = merklize(&tag, &vec![node(2), node(1)]);
    assert_ne!(root_ab, root_ba);
}

#[test]
fn merklize_is_leaf_sensitive() {
    let tag = b"merkle-test".to_vec();
    let root_a = merklize(&tag, &vec![node(1), node(2), node(3), node(4)]);
    let root_b = merklize(&tag, &vec![node(1), node(2), node(3), node(9)]);
    assert_ne!(root_a, root_b);
}

#[test]
fn padding_matches_explicit_empty_nodes() {
    // Padding a three-leaf sequence appends the tag-derived empty node;
    // the same four leaves given explicitly produce the same root.
    let tag = b"merkle-test".to_vec();
    let th = TaggedHash::new(tag.clone());
    let empty = MerkleNode::from_bytes(th.hash(&Vec::new()));
    let padded_by_hand = merklize(&tag, &vec![node(1), node(2), node(3), empty]);
    let padded_inside = merklize(&tag, &vec![node(1), node(2), node(3)]);
    assert_eq!(padded_by_hand, padded_inside);
}

#[test]
fn power_of_two_needs_no_padding() {
    // A four-leaf root differs from the root of the same leaves with
    // one more appended: padding is applied only below a power of two.
    let tag = b"merkle-test".to_vec();
    let four = merklize(&tag, &vec![node(1), node(2), node(3), node(4)]);
    let th = TaggedHash::new(tag.clone());
    let empty = MerkleNode::from_bytes(th.hash(&Vec::new()));
    let five = merklize(&tag, &vec![node(1), node(2), node(3), node(4), empty]);
    assert_ne!(four, five);
}

#[test]
fn empty_leaves_commit_to_the_empty_node() {
    let tag = b"merkle-test".to_vec();
    let th = TaggedHash::new(tag.clone());
    let empty = MerkleNode::from_bytes(th.hash(&Vec::new()));
    let root = merklize(&tag, &Vec::new());
    let expected = th.hash(&empty.to_bytes().to_vec());
    assert_eq!(root.to_bytes(), expected);
}
