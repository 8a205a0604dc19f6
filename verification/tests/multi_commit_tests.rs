//! Tests of the multi-message commitment block: deterministic
//! placement, capacity handling, filler shape and verification.

use commit_verify::multi_commit::protocol_id_slot;
use commit_verify::{
    Message, MultiCommitBlock, MultiCommitError, MultiCommitItem, MultiSource, ProtocolId,
    TryCommitVerify, VerifyEq,
};

fn digest(seed: u8) -> [u8; 32] {
    let mut d = [0u8; 32];
    let mut i = 0usize;
    while i < 32 {
        d[i] = seed.wrapping_mul(37).wrapping_add(i as u8);
        i += 1;
    }
    d
}

fn protocol(seed: u8) -> ProtocolId {
    ProtocolId::from_bytes(digest(seed))
}

fn message(seed: u8) -> Message {
    Message::from_bytes(digest(seed.wrapping_add(100)))
}

/// Finds a protocol id whose candidate slot (mod `slot_count`) is
/// `want`, skipping the seeds listed in `used`.
fn find_protocol(slot_count: usize, want: usize, used: &[u8]) -> (u8, ProtocolId) {
    let mut seed = 0u8;
    loop {
        if !used.contains(&seed) {
            let p = protocol(seed);
            if protocol_id_slot(&p, slot_count) == want {
                return (seed, p);
            }
        }
        seed = seed.checked_add(1).expect("no candidate found");
    }
}

#[test]
fn colliding_protocols_probe_to_the_next_slot() {
    // Two protocols whose candidate slot is 1 and one whose candidate
    // is 3, in a block of 4 slots: the canonically later of the two
    // colliding protocols must land on slot 2 by linear probing.
    let (seed_a, a) = find_protocol(4, 1, &[]);
    let (_seed_b, b) = find_protocol(4, 1, &[seed_a]);
    let (_seed_c, c) = find_protocol(4, 3, &[]);

    let items = vec![
        MultiCommitItem::new(a, message(1)),
        MultiCommitItem::new(b, message(2)),
        MultiCommitItem::new(c, message(3)),
    ];
    let source = MultiSource { min_capacity: 3, entropy: 7 };
    let block = MultiCommitBlock::try_commit(&source, &items).expect("fits");
    assert_eq!(block.slot_count(), 4);

    // Insertion is in ascending protocol order: the smaller of a and b
    // takes the candidate slot 1, the larger is probed on to slot 2.
    let (first, second) = if a.0 < b.0 { (a, b) } else { (b, a) };
    assert_eq!(block.slot(1).expect("occupied").protocol.0, first.0);
    assert_eq!(block.slot(2).expect("occupied").protocol.0, second.0);
    assert_eq!(block.slot(3).expect("occupied").protocol.0, c.0);
    assert!(block.slot(0).is_none());
}

#[test]
fn rederiving_the_block_reproduces_it_exactly() {
    let items = vec![
        MultiCommitItem::new(protocol(1), message(1)),
        MultiCommitItem::new(protocol(2), message(2)),
        MultiCommitItem::new(protocol(3), message(3)),
    ];
    let source = MultiSource { min_capacity: 4, entropy: 99 };
    let block_a = MultiCommitBlock::try_commit(&source, &items).expect("fits");
    let block_b = MultiCommitBlock::try_commit(&source, &items).expect("fits");
    assert!(block_a.verify_eq(&block_b));
    assert_eq!(block_a.consensus_commit(), block_b.consensus_commit());
}

#[test]
fn input_order_does_not_change_the_block() {
    let i1 = MultiCommitItem::new(protocol(1), message(1));
    let i2 = MultiCommitItem::new(protocol(2), message(2));
    let i3 = MultiCommitItem::new(protocol(3), message(3));
    let source = MultiSource { min_capacity: 4, entropy: 5 };
    let block_a = MultiCommitBlock::try_commit(&source, &vec![i1, i2, i3]).expect("fits");
    let block_b = MultiCommitBlock::try_commit(&source, &vec![i3, i1, i2]).expect("fits");
    assert!(block_a.verify_eq(&block_b));
}

#[test]
fn capacity_exhaustion_is_a_typed_error() {
    // Five distinct protocols cannot fit four slots; nothing is
    // silently dropped or overwritten.
    let items: Vec<MultiCommitItem> =
        (1u8..=5).map(|s| MultiCommitItem::new(protocol(s), message(s))).collect();
    let source = MultiSource { min_capacity: 3, entropy: 0 };
    let err = MultiCommitBlock::try_commit(&source, &items).unwrap_err();
    assert_eq!(err, MultiCommitError::CapacityExceeded);
}

#[test]
fn duplicate_protocols_are_rejected() {
    let items = vec![
        MultiCommitItem::new(protocol(1), message(1)),
        MultiCommitItem::new(protocol(1), message(2)),
    ];
    let source = MultiSource { min_capacity: 4, entropy: 0 };
    let err = MultiCommitBlock::try_commit(&source, &items).unwrap_err();
    assert_eq!(err, MultiCommitError::DuplicateProtocol);
}

#[test]
fn exactly_full_block_is_accepted() {
    let items: Vec<MultiCommitItem> =
        (1u8..=4).map(|s| MultiCommitItem::new(protocol(s), message(s))).collect();
    let source = MultiSource { min_capacity: 4, entropy: 0 };
    let block = MultiCommitBlock::try_commit(&source, &items).expect("exactly full");
    assert_eq!(block.slot_count(), 4);
    for s in 1u8..=4 {
        assert!(block.verify(&protocol(s), &message(s)));
    }
}

#[test]
fn blocks_with_different_fill_have_identical_shape() {
    // Same slot count, one real item versus three: the slot arrays and
    // the commitment vectors have the same length, and every slot
    // carries a digest.
    let source_a = MultiSource { min_capacity: 4, entropy: 11 };
    let source_b = MultiSource { min_capacity: 4, entropy: 22 };
    let one = vec![MultiCommitItem::new(protocol(1), message(1))];
    let three: Vec<MultiCommitItem> =
        (1u8..=3).map(|s| MultiCommitItem::new(protocol(s), message(s))).collect();
    let block_a = MultiCommitBlock::try_commit(&source_a, &one).expect("fits");
    let block_b = MultiCommitBlock::try_commit(&source_b, &three).expect("fits");
    assert_eq!(block_a.slot_count(), block_b.slot_count());
    let commits_a = block_a.commitments();
    let commits_b = block_b.commitments();
    assert_eq!(commits_a.len(), commits_b.len());
    assert_eq!(commits_a.len(), 4);
}

#[test]
fn fillers_differ_across_slots_and_seeds() {
    // Filler digests depend on the seed and the slot index, so an
    // empty block's slot digests are pairwise distinct, and another
    // seed gives different fillers.
    let source_a = MultiSource { min_capacity: 4, entropy: 1 };
    let source_b = MultiSource { min_capacity: 4, entropy: 2 };
    let empty: Vec<MultiCommitItem> = Vec::new();
    let block_a = MultiCommitBlock::try_commit(&source_a, &empty).expect("fits");
    let block_b = MultiCommitBlock::try_commit(&source_b, &empty).expect("fits");
    let ca = block_a.commitments();
    let cb = block_b.commitments();
    for i in 0..ca.len() {
        for j in 0..ca.len() {
            if i != j {
                assert_ne!(ca[i].0, ca[j].0);
            }
        }
        assert_ne!(ca[i].0, cb[i].0);
    }
    assert_ne!(block_a.consensus_commit(), block_b.consensus_commit());
}

#[test]
fn committed_items_verify_and_tampered_ones_do_not() {
    let items: Vec<MultiCommitItem> =
        (1u8..=3).map(|s| MultiCommitItem::new(protocol(s), message(s))).collect();
    let source = MultiSource { min_capacity: 4, entropy: 77 };
    let block = MultiCommitBlock::try_commit(&source, &items).expect("fits");
    for s in 1u8..=3 {
        assert!(block.verify(&protocol(s), &message(s)));
        // A different message digest for the same protocol never
        // verifies.
        assert!(!block.verify(&protocol(s), &message(s.wrapping_add(7))));
        // Flipping one bit of the committed message digest fails too.
        let mut tampered = message(s).0;
        tampered[31] ^= 0x80;
        assert!(!block.verify(&protocol(s), &Message::from_bytes(tampered)));
    }
    // A protocol that was never committed does not verify.
    assert!(!block.verify(&protocol(9), &message(9)));
}

#[test]
fn verification_against_the_published_root() {
    let items: Vec<MultiCommitItem> =
        (1u8..=2).map(|s| MultiCommitItem::new(protocol(s), message(s))).collect();
    let source = MultiSource { min_capacity: 4, entropy: 13 };
    let block = MultiCommitBlock::try_commit(&source, &items).expect("fits");
    let root = block.consensus_commit();
    assert!(block.verify_against_root(&protocol(1), &message(1), &root));
    // Wrong message or wrong root must both fail.
    assert!(!block.verify_against_root(&protocol(1), &message(2), &root));
    let mut wrong = root.to_bytes();
    wrong[0] ^= 0x01;
    let wrong_root = commit_verify::MerkleNode::from_bytes(wrong);
    assert!(!block.verify_against_root(&protocol(1), &message(1), &wrong_root));
}

#[test]
fn minimum_capacity_zero_still_yields_one_slot() {
    let source = MultiSource { min_capacity: 0, entropy: 0 };
    let empty: Vec<MultiCommitItem> = Vec::new();
    let block = MultiCommitBlock::try_commit(&source, &empty).expect("fits");
    assert_eq!(block.slot_count(), 1);
    assert!(!block.verify(&protocol(1), &message(1)));
}

#[test]
fn slot_count_rounds_up_to_a_power_of_two() {
    let source = MultiSource { min_capacity: 5, entropy: 0 };
    let empty: Vec<MultiCommitItem> = Vec::new();
    let block = MultiCommitBlock::try_commit(&source, &empty).expect("fits");
    assert_eq!(block.slot_count(), 8);
}

#[test]
fn trait_try_commit_agrees_with_inherent_construction() {
    let items = vec![MultiCommitItem::new(protocol(1), message(1))];
    let source = MultiSource { min_capacity: 2, entropy: 3 };
    let via_trait = source.try_commit(&items).expect("fits");
    let direct = MultiCommitBlock::try_commit(&source, &items).expect("fits");
    assert!(via_trait.verify_eq(&direct));
}

#[test]
fn candidate_slots_are_stable_and_in_range() {
    for s in 0u8..32 {
        let p = protocol(s);
        let slot = protocol_id_slot(&p, 16);
        assert!(slot < 16);
        assert_eq!(slot, protocol_id_slot(&p, 16));
    }
}
