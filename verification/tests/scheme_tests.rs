//! Tests of the embed and convolve commitment schemes on the digest
//! container.

use commit_verify::{
    ConvolveCommit, ConvolveCommitProof, DigestConvolveProof, EmbedCommitVerify, MerkleNode,
    Message, VerifyEq,
};

fn digest(seed: u8) -> [u8; 32] {
    let mut d = [0u8; 32];
    let mut i = 0usize;
    while i < 32 {
        d[i] = seed.wrapping_mul(41).wrapping_add(i as u8);
        i += 1;
    }
    d
}

#[test]
fn embed_commit_round_trip() {
    let original = MerkleNode::from_bytes(digest(1));
    let msg = Message::from_bytes(digest(2));
    let mut container = original;
    let proof: MerkleNode = container.embed_commit(&msg).expect("embedding cannot fail");
    // The container was mutated into the commitment; the proof is the
    // pre-mutation state.
    assert!(proof.verify_eq(&original));
    assert!(!container.verify_eq(&original));
    assert_eq!(container.verify(&msg, &proof), Ok(true));
}

#[test]
fn embed_commit_rejects_tampering() {
    let original = MerkleNode::from_bytes(digest(1));
    let msg = Message::from_bytes(digest(2));
    let mut container = original;
    let proof: MerkleNode = container.embed_commit(&msg).expect("embedding cannot fail");

    // Tampered commitment container.
    let mut bytes = container.to_bytes();
    bytes[0] ^= 0x01;
    let tampered_container = MerkleNode::from_bytes(bytes);
    assert_eq!(tampered_container.verify(&msg, &proof), Ok(false));

    // Tampered proof.
    let mut pb = proof.to_bytes();
    pb[5] ^= 0x10;
    let tampered_proof = MerkleNode::from_bytes(pb);
    assert_eq!(container.verify(&msg, &tampered_proof), Ok(false));

    // Tampered message.
    let mut mb = msg.0;
    mb[31] ^= 0x40;
    let tampered_msg = Message::from_bytes(mb);
    assert_eq!(container.verify(&tampered_msg, &proof), Ok(false));
}

#[test]
fn convolve_commit_round_trip() {
    let source = MerkleNode::from_bytes(digest(10));
    let supplement = MerkleNode::from_bytes(digest(20));
    let msg = Message::from_bytes(digest(30));
    let (commitment, proof): (MerkleNode, DigestConvolveProof) =
        source.convolve_commit(&supplement, &msg).expect("convolving cannot fail");
    assert!(proof.original.verify_eq(&source));
    assert!(proof.extract_supplement().verify_eq(&supplement));
    assert!(proof.restore_original(&commitment).verify_eq(&source));
    assert_eq!(proof.verify(&msg, &commitment), Ok(true));
}

#[test]
fn convolve_commit_rejects_tampering() {
    let source = MerkleNode::from_bytes(digest(10));
    let supplement = MerkleNode::from_bytes(digest(20));
    let msg = Message::from_bytes(digest(30));
    let (commitment, proof): (MerkleNode, DigestConvolveProof) =
        source.convolve_commit(&supplement, &msg).expect("convolving cannot fail");

    // Tampered commitment: the replay reproduces the true commitment,
    // which no longer matches.
    let mut cb = commitment.to_bytes();
    cb[3] ^= 0x04;
    let tampered_commitment = MerkleNode::from_bytes(cb);
    assert_eq!(proof.verify(&msg, &tampered_commitment), Ok(false));

    // Tampered message.
    let mut mb = digest(30);
    mb[0] ^= 0x02;
    let tampered_msg = Message::from_bytes(mb);
    assert_eq!(proof.verify(&tampered_msg, &commitment), Ok(false));

    // Tampered supplement inside the proof.
    let tampered_proof =
        DigestConvolveProof { original: proof.original, supplement: MerkleNode::from_bytes(digest(21)) };
    assert_eq!(tampered_proof.verify(&msg, &commitment), Ok(false));

    // Tampered original inside the proof.
    let tampered_proof2 =
        DigestConvolveProof { original: MerkleNode::from_bytes(digest(11)), supplement: proof.supplement };
    assert_eq!(tampered_proof2.verify(&msg, &commitment), Ok(false));
}

#[test]
fn convolve_commitments_differ_per_supplement() {
    let source = MerkleNode::from_bytes(digest(10));
    let msg = Message::from_bytes(digest(30));
    let (c1, _): (MerkleNode, DigestConvolveProof) = source
        .convolve_commit(&MerkleNode::from_bytes(digest(20)), &msg)
        .expect("convolving cannot fail");
    let (c2, _): (MerkleNode, DigestConvolveProof) = source
        .convolve_commit(&MerkleNode::from_bytes(digest(21)), &msg)
        .expect("convolving cannot fail");
    assert!(!c1.verify_eq(&c2));
}
