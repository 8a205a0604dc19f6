//! Convolved commitments (convolve-commit-verify scheme).
//!
//! A container is convolved with external, immutable *supplement* data
//! that is not part of the container itself, and the result is bound to
//! a message, producing a commitment and a proof.  The proof carries
//! the supplement and enough information to reconstruct the container
//! as it was before the commitment, so a verifier can replay the
//! commitment procedure and compare both outcomes verify-equal.

use vstd::prelude::*;
use crate::commit::{CommitEncode, CommitmentProtocol, VerifyEq};

verus! {

/// The convolve-commit-verify scheme: a container (the source) commits
/// to a message using an external supplement, producing a commitment
/// and a proof.  Committing is a pure function of container, supplement
/// and message; its outcome, success or typed error, is pinned by the
/// spec members below.
pub trait ConvolveCommit<Msg, Proof, Protocol> where
    Self: Sized + View,
    Msg: CommitEncode,
    Proof: VerifyEq,
    Protocol: CommitmentProtocol,
{
    /// Supplement: external immutable data provided during the
    /// commitment procedure, never contained in the source itself.
    type Suppl;

    /// Commitment type produced by [`Self::convolve_commit`].
    type Commitment: VerifyEq;

    /// Error reported when the commitment procedure cannot be
    /// performed; also returned from [`ConvolveCommitProof::verify`]
    /// when the replay fails.
    type CommitError;

    /// Whether committing succeeds for this supplement and message.
    spec fn convolve_ok_spec(&self, supplement: Self::Suppl, msg: Msg) -> bool;

    /// The committed content produced on success.
    spec fn convolve_commitment_spec(&self, supplement: Self::Suppl, msg: Msg) -> <Self::Commitment as View>::V;

    /// The proof produced on success.
    spec fn convolve_proof_spec(&self, supplement: Self::Suppl, msg: Msg) -> Proof;

    /// The error reported on failure.
    spec fn convolve_err_spec(&self, supplement: Self::Suppl, msg: Msg) -> Self::CommitError;

    /// Convolves this source with the supplement and commits the
    /// result to `msg`, producing the commitment and the proof, or the
    /// typed construction error.
    fn convolve_commit(&self, supplement: &Self::Suppl, msg: &Msg) -> (r: Result<
        (Self::Commitment, Proof),
        Self::CommitError,
    >)
        ensures
            (r is Ok) == self.convolve_ok_spec(*supplement, *msg),
            r matches Ok(p) ==> p.0@ == self.convolve_commitment_spec(*supplement, *msg) && p.1
                == self.convolve_proof_spec(*supplement, *msg),
            r matches Err(e) ==> e == self.convolve_err_spec(*supplement, *msg),
    ;
}

/// Proof type used by the [`ConvolveCommit`] protocol.
pub trait ConvolveCommitProof<Msg, Source, Protocol> where
    Self: Sized + VerifyEq,
    Source: ConvolveCommit<Msg, Self, Protocol>,
    Msg: CommitEncode,
    Protocol: CommitmentProtocol,
{
    /// The source this proof restores for a presented commitment.
    spec fn restore_spec(&self, commitment: <Source::Commitment as View>::V) -> Source;

    /// The supplement carried by this proof.
    spec fn suppl_spec(&self) -> Source::Suppl;

    /// Restores the original source, as it was before the commitment,
    /// from the proof (the `self`) and the commitment.
    fn restore_original(&self, commitment: &Source::Commitment) -> (r: Source)
        ensures
            r == self.restore_spec(commitment@),
    ;

    /// Extracts the supplement from the proof.
    fn extract_supplement(&self) -> (r: &Source::Suppl)
        ensures
            *r == self.suppl_spec(),
    ;

    /// Coherence of commit and restore: the proof produced by a
    /// successful commitment restores exactly the source and carries
    /// exactly the supplement it was created with.  Every implementor
    /// proves this, and it is what makes the round trip law below hold
    /// for every implementation.
    proof fn lemma_convolve_restores(source: Source, supplement: Source::Suppl, msg: Msg)
        requires
            source.convolve_ok_spec(supplement, msg),
        ensures
            source.convolve_proof_spec(supplement, msg).restore_spec(
                source.convolve_commitment_spec(supplement, msg),
            ) == source,
            source.convolve_proof_spec(supplement, msg).suppl_spec() == supplement,
    ;

    /// Verifies the commitment against the message using the proof
    /// (the `self`): restores the original source, replays
    /// [`ConvolveCommit::convolve_commit`], and compares both the
    /// recomputed commitment and the recomputed proof verify-equal with
    /// the presented ones.  A failed replay is reported as the typed
    /// replay error, never collapsed to `false`, so that an invalid
    /// proof stays distinguishable from one that could not be checked.
    fn verify(&self, msg: &Msg, commitment: &Source::Commitment) -> (r: Result<
        bool,
        Source::CommitError,
    >)
        ensures
            ({
                let orig = self.restore_spec(commitment@);
                let suppl = self.suppl_spec();
                if orig.convolve_ok_spec(suppl, *msg) {
                    r == Ok::<bool, Source::CommitError>(
                        commitment@ == orig.convolve_commitment_spec(suppl, *msg) && self@
                            == orig.convolve_proof_spec(suppl, *msg)@,
                    )
                } else {
                    r == Err::<bool, Source::CommitError>(orig.convolve_err_spec(suppl, *msg))
                }
            }),
    {
        let original = self.restore_original(commitment);
        let suppl = self.extract_supplement();
        match original.convolve_commit(suppl, msg) {
            Ok((commitment_prime, proof_prime)) => Ok(
                commitment.verify_eq(&commitment_prime) && self.verify_eq(&proof_prime),
            ),
            Err(e) => Err(e),
        }
    }
}

/// Round trip: whenever `convolve_commit` succeeds, the produced proof
/// restores the original source and the replay performed by
/// [`ConvolveCommitProof::verify`] reproduces the same commitment and
/// proof, so verification of an untampered triple returns `Ok(true)`.
pub proof fn lemma_convolve_round_trip<Msg, Source, Proof, Protocol>(
    source: Source,
    supplement: Source::Suppl,
    msg: Msg,
) where
    Msg: CommitEncode,
    Source: ConvolveCommit<Msg, Proof, Protocol>,
    Proof: ConvolveCommitProof<Msg, Source, Protocol>,
    Protocol: CommitmentProtocol,

    requires
        source.convolve_ok_spec(supplement, msg),
    ensures
        ({
            let c = source.convolve_commitment_spec(supplement, msg);
            let p = source.convolve_proof_spec(supplement, msg);
            let orig = p.restore_spec(c);
            &&& orig == source
            &&& orig.convolve_ok_spec(p.suppl_spec(), msg)
            &&& c == orig.convolve_commitment_spec(p.suppl_spec(), msg)
            &&& p@ == orig.convolve_proof_spec(p.suppl_spec(), msg)@
        }),
{
    Proof::lemma_convolve_restores(source, supplement, msg);
}

/// The domain tag under which a digest container is convolved with its
/// supplement and bound to a message.
pub open spec fn convolve_tag_spec() -> Seq<u8> {
    seq![100u8, 98u8, 99u8, 47u8, 99u8, 111u8, 110u8, 118u8, 111u8, 108u8, 118u8, 101u8]
}

fn convolve_tag() -> (r: Vec<u8>)
    ensures
        r@ == convolve_tag_spec(),
{
    let mut t: Vec<u8> = Vec::new();
    t.push(100u8);
    t.push(98u8);
    t.push(99u8);
    t.push(47u8);
    t.push(99u8);
    t.push(111u8);
    t.push(110u8);
    t.push(118u8);
    t.push(111u8);
    t.push(108u8);
    t.push(118u8);
    t.push(101u8);
    proof {
        assert(t@ =~= convolve_tag_spec());
    }
    t
}

/// Proof of a digest convolve-commitment: the original container
/// digest and the supplement it was convolved with.
#[derive(Clone, Copy, Debug)]
pub struct DigestConvolveProof {
    /// The container digest as it was before the commitment.
    pub original: crate::merkle::MerkleNode,
    /// The supplement the container was convolved with.
    pub supplement: crate::merkle::MerkleNode,
}

impl View for DigestConvolveProof {
    type V = (Seq<u8>, Seq<u8>);

    open spec fn view(&self) -> (Seq<u8>, Seq<u8>) {
        (self.original@, self.supplement@)
    }
}

impl VerifyEq for DigestConvolveProof {
    fn verify_eq(&self, other: &Self) -> (r: bool) {
        crate::tagged_hash::digest_eq(&self.original.0, &other.original.0)
            && crate::tagged_hash::digest_eq(&self.supplement.0, &other.supplement.0)
    }
}

impl ConvolveCommit<crate::multi_commit::Message, DigestConvolveProof, crate::commit::DigestProtocol> for crate::merkle::MerkleNode {
    type Suppl = crate::merkle::MerkleNode;

    type Commitment = crate::merkle::MerkleNode;

    type CommitError = ();

    /// Convolving a digest container never fails.
    open spec fn convolve_ok_spec(
        &self,
        supplement: crate::merkle::MerkleNode,
        msg: crate::multi_commit::Message,
    ) -> bool {
        true
    }

    /// The committed content: the tagged hash of container digest,
    /// supplement digest and message digest, in that order.
    open spec fn convolve_commitment_spec(
        &self,
        supplement: crate::merkle::MerkleNode,
        msg: crate::multi_commit::Message,
    ) -> Seq<u8> {
        crate::tagged_hash::tagged_hash_of(convolve_tag_spec(), self@ + supplement@ + msg@)
    }

    open spec fn convolve_proof_spec(
        &self,
        supplement: crate::merkle::MerkleNode,
        msg: crate::multi_commit::Message,
    ) -> DigestConvolveProof {
        DigestConvolveProof { original: *self, supplement }
    }

    open spec fn convolve_err_spec(
        &self,
        supplement: crate::merkle::MerkleNode,
        msg: crate::multi_commit::Message,
    ) -> () {
        ()
    }

    fn convolve_commit(
        &self,
        supplement: &crate::merkle::MerkleNode,
        msg: &crate::multi_commit::Message,
    ) -> (r: Result<(crate::merkle::MerkleNode, DigestConvolveProof), ()>) {
        let mut payload = crate::tagged_hash::digest_to_vec(&self.0);
        let suppl_bytes = crate::tagged_hash::digest_to_vec(&supplement.0);
        let msg_bytes = crate::tagged_hash::digest_to_vec(&msg.0);
        crate::tagged_hash::push_bytes(&mut payload, &suppl_bytes);
        crate::tagged_hash::push_bytes(&mut payload, &msg_bytes);
        let tag = convolve_tag();
        let commitment = crate::merkle::MerkleNode::from_bytes(crate::tagged_hash::tagged_hash(
            &tag,
            &payload,
        ));
        Ok((commitment, DigestConvolveProof { original: *self, supplement: *supplement }))
    }
}

impl ConvolveCommitProof<crate::multi_commit::Message, crate::merkle::MerkleNode, crate::commit::DigestProtocol> for DigestConvolveProof {
    /// The proof restores the container it recorded, regardless of the
    /// presented commitment, so a tampered commitment is replayed
    /// against the true original and rejected.
    open spec fn restore_spec(&self, commitment: Seq<u8>) -> crate::merkle::MerkleNode {
        self.original
    }

    open spec fn suppl_spec(&self) -> crate::merkle::MerkleNode {
        self.supplement
    }

    fn restore_original(&self, commitment: &crate::merkle::MerkleNode) -> (r:
        crate::merkle::MerkleNode) {
        self.original
    }

    fn extract_supplement(&self) -> (r: &crate::merkle::MerkleNode) {
        &self.supplement
    }

    proof fn lemma_convolve_restores(
        source: crate::merkle::MerkleNode,
        supplement: crate::merkle::MerkleNode,
        msg: crate::multi_commit::Message,
    ) {
    }
}

/// Tamper sensitivity of the digest convolve scheme: the proof
/// restores the true original whatever commitment is presented, and
/// the replay recomputes the true commitment content, so by the
/// contract of [`ConvolveCommitProof::verify`] a presented commitment
/// with any other content yields `Ok(false)`, never `Ok(true)`.
pub proof fn lemma_digest_convolve_tamper(
    source: crate::merkle::MerkleNode,
    supplement: crate::merkle::MerkleNode,
    msg: crate::multi_commit::Message,
    presented: Seq<u8>,
)
    requires
        presented != crate::tagged_hash::tagged_hash_of(
            convolve_tag_spec(),
            source@ + supplement@ + msg@,
        ),
    ensures
        ({
            let p = source.convolve_proof_spec(supplement, msg);
            let orig = p.restore_spec(presented);
            &&& orig == source
            &&& orig.convolve_ok_spec(p.suppl_spec(), msg)
            &&& presented != orig.convolve_commitment_spec(p.suppl_spec(), msg)
        }),
{
}

} // verus!
