//! Tests of the tagged-hash primitive and the plain commit scheme.

use commit_verify::{CommitVerify, Message, TaggedHash, VerifyEq};

fn digest(seed: u8) -> [u8; 32] {
    let mut d = [0u8; 32];
    let mut i = 0usize;
    while i < 32 {
        d[i] = seed.wrapping_add(i as u8);
        i += 1;
    }
    d
}

#[test]
fn tagged_hash_matches_prefixed_sha256() {
    // The tagged hash must equal SHA-256 over the tag's digest twice
    // followed by the payload; computed independently here.
    let tag = b"mpc/protocol".to_vec();
    let data = vec![1u8, 2, 3, 4, 5];
    let th = TaggedHash::new(tag.clone());
    let got = th.hash(&data);

    let tag_digest = bitcoin_hashes::sha256::Hash::hash(&tag).to_byte_array();
    let mut buf = Vec::new();
    buf.extend_from_slice(&tag_digest);
    buf.extend_from_slice(&tag_digest);
    buf.extend_from_slice(&data);
    let expected = bitcoin_hashes::sha256::Hash::hash(&buf).to_byte_array();
    assert_eq!(got, expected);
}

#[test]
fn tagged_hash_is_deterministic() {
    let th = TaggedHash::new(b"some-domain".to_vec());
    let data = vec![9u8, 8, 7];
    assert_eq!(th.hash(&data), th.hash(&data));
}

#[test]
fn tagged_hash_separates_domains() {
    let a = TaggedHash::new(b"domain-a".to_vec());
    let b = TaggedHash::new(b"domain-b".to_vec());
    let data = vec![42u8; 16];
    assert_ne!(a.hash(&data), b.hash(&data));
}

#[test]
fn tagged_hash_does_not_echo_input() {
    // A 32-byte payload must not come back unchanged.
    let th = TaggedHash::new(b"echo".to_vec());
    let data = digest(7).to_vec();
    let out = th.hash(&data);
    assert_ne!(out.to_vec(), data);
}

#[test]
fn commit_verify_round_trip() {
    let th = TaggedHash::new(b"commit-domain".to_vec());
    let msg = Message::from_bytes(digest(3));
    let commitment = th.commit(&msg);
    assert!(th.verify(&msg, &commitment));
}

#[test]
fn commit_verify_rejects_other_message() {
    let th = TaggedHash::new(b"commit-domain".to_vec());
    let msg = Message::from_bytes(digest(3));
    let other = Message::from_bytes(digest(4));
    let commitment = th.commit(&msg);
    assert!(!th.verify(&other, &commitment));
}

#[test]
fn commit_verify_rejects_tampered_commitment() {
    let th = TaggedHash::new(b"commit-domain".to_vec());
    let msg = Message::from_bytes(digest(3));
    let commitment = th.commit(&msg);
    let mut bytes = commitment.to_bytes();
    bytes[0] ^= 0x01;
    let tampered = commit_verify::MerkleNode::from_bytes(bytes);
    assert!(!th.verify(&msg, &tampered));
    assert!(!tampered.verify_eq(&commitment));
}
