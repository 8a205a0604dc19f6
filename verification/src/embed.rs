//! Embedded commitments (embed-commit-verify scheme).
//!
//! Committing transforms the container in place into the commitment
//! value itself: commitment and container share a representation, and
//! the proof is simply what the container looked like before.  The
//! verifier restores the original container from the proof, replays the
//! embedding, and compares the recomputed commitment and proof
//! verify-equal with the presented ones.

use vstd::prelude::*;
use crate::commit::{CommitEncode, CommitmentProtocol, VerifyEq};

verus! {

/// Proof type used by the [`EmbedCommitVerify`] protocol: a value
/// sufficient to reconstruct the container as it was before the
/// commitment mutated it.
pub trait EmbedCommitProof<Msg, Container, Protocol> where
    Self: Sized + VerifyEq,
    Msg: CommitEncode,
    Protocol: CommitmentProtocol,
{
    /// The container this proof restores for a presented commitment
    /// container.
    spec fn restore_spec(&self, commit_container: Container) -> Container;

    /// Restores the original container, as it was before the
    /// commitment, from the proof (the `self`) and the mutated
    /// container presented as the commitment.
    fn restore_original_container(&self, commit_container: &Container) -> (r: Container)
        ensures
            r == self.restore_spec(*commit_container),
    ;
}

/// The embed-commit-verify scheme: committing mutates the container
/// into the commitment value and hands back the pre-mutation state as
/// the proof.  The outcome, success or typed error, is a pure function
/// of the original container and the message, pinned by the spec
/// members below.
pub trait EmbedCommitVerify<Msg, Proof, Protocol> where
    Self: Sized + VerifyEq,
    Msg: CommitEncode,
    Proof: EmbedCommitProof<Msg, Self, Protocol>,
    Protocol: CommitmentProtocol,
{
    /// Error reported when the embedding cannot be performed; also
    /// returned from [`Self::verify`] when the replay fails.
    type CommitError;

    /// Whether embedding succeeds for this container and message.
    spec fn embed_ok_spec(&self, msg: Msg) -> bool;

    /// The committed content the container holds after a successful
    /// embedding.
    spec fn embed_view_spec(&self, msg: Msg) -> <Self as View>::V;

    /// The proof produced by a successful embedding.
    spec fn embed_proof_spec(&self, msg: Msg) -> Proof;

    /// The error reported on failure.
    spec fn embed_err_spec(&self, msg: Msg) -> Self::CommitError;

    /// Coherence of embed and restore: the proof produced by a
    /// successful embedding restores exactly this container from any
    /// commitment container carrying the embedded content.  Every
    /// implementor proves this; it gives the round trip law below.
    proof fn lemma_embed_restores(&self, msg: Msg, commit_container: Self)
        requires
            self.embed_ok_spec(msg),
            commit_container@ == self.embed_view_spec(msg),
        ensures
            self.embed_proof_spec(msg).restore_spec(commit_container) == *self,
    ;

    /// Embeds a commitment to `msg` into this container, mutating it
    /// into the commitment value, and returns the pre-mutation state as
    /// the proof.  On failure the container is left unchanged and the
    /// typed error is reported.
    fn embed_commit(&mut self, msg: &Msg) -> (r: Result<Proof, Self::CommitError>)
        ensures
            (r is Ok) == old(self).embed_ok_spec(*msg),
            r matches Ok(p) ==> final(self)@ == old(self).embed_view_spec(*msg) && p == old(
                self,
            ).embed_proof_spec(*msg),
            r matches Err(e) ==> *final(self) == *old(self) && e == old(self).embed_err_spec(*msg),
    ;

    /// Verifies that this container (acting as the commitment) embeds
    /// `msg`, using the proof: restores the original container, replays
    /// the embedding, and compares the recomputed commitment and proof
    /// verify-equal with the presented ones.  A failed replay is
    /// reported as the typed error, never collapsed to `false`.
    fn verify(&self, msg: &Msg, proof: &Proof) -> (r: Result<bool, Self::CommitError>)
        ensures
            ({
                let orig = proof.restore_spec(*self);
                if orig.embed_ok_spec(*msg) {
                    r == Ok::<bool, Self::CommitError>(
                        self@ == orig.embed_view_spec(*msg) && proof@ == orig.embed_proof_spec(
                            *msg,
                        )@,
                    )
                } else {
                    r == Err::<bool, Self::CommitError>(orig.embed_err_spec(*msg))
                }
            }),
    {
        let mut original = proof.restore_original_container(self);
        match original.embed_commit(msg) {
            Ok(proof_prime) => Ok(self.verify_eq(&original) && proof.verify_eq(&proof_prime)),
            Err(e) => Err(e),
        }
    }
}

/// Round trip: whenever `embed_commit` succeeds, the produced proof
/// restores the original container from the mutated one, and the
/// replay performed by [`EmbedCommitVerify::verify`] reproduces the
/// same commitment content and proof, so verification of an untampered
/// triple returns `Ok(true)`.
pub proof fn lemma_embed_round_trip<Msg, Container, Proof, Protocol>(
    container: Container,
    msg: Msg,
    commit_container: Container,
) where
    Msg: CommitEncode,
    Container: EmbedCommitVerify<Msg, Proof, Protocol>,
    Proof: EmbedCommitProof<Msg, Container, Protocol>,
    Protocol: CommitmentProtocol,

    requires
        container.embed_ok_spec(msg),
        commit_container@ == container.embed_view_spec(msg),
    ensures
        ({
            let p = container.embed_proof_spec(msg);
            let orig = p.restore_spec(commit_container);
            &&& orig == container
            &&& orig.embed_ok_spec(msg)
            &&& commit_container@ == orig.embed_view_spec(msg)
            &&& p@ == orig.embed_proof_spec(msg)@
        }),
{
    container.lemma_embed_restores(msg, commit_container);
}

/// The domain tag under which a digest container embeds a message
/// commitment.
pub open spec fn embed_tag_spec() -> Seq<u8> {
    seq![100u8, 98u8, 99u8, 47u8, 101u8, 109u8, 98u8, 101u8, 100u8]
}

fn embed_tag() -> (r: Vec<u8>)
    ensures
        r@ == embed_tag_spec(),
{
    let mut t: Vec<u8> = Vec::new();
    t.push(100u8);
    t.push(98u8);
    t.push(99u8);
    t.push(47u8);
    t.push(101u8);
    t.push(109u8);
    t.push(98u8);
    t.push(101u8);
    t.push(100u8);
    proof {
        assert(t@ =~= embed_tag_spec());
    }
    t
}

impl EmbedCommitProof<crate::multi_commit::Message, crate::merkle::MerkleNode, crate::commit::DigestProtocol> for crate::merkle::MerkleNode {
    /// The proof is the pre-mutation digest itself; it restores the
    /// original container regardless of the presented commitment.
    open spec fn restore_spec(&self, commit_container: crate::merkle::MerkleNode) -> crate::merkle::MerkleNode {
        *self
    }

    fn restore_original_container(&self, commit_container: &crate::merkle::MerkleNode) -> (r:
        crate::merkle::MerkleNode) {
        *self
    }
}

impl EmbedCommitVerify<crate::multi_commit::Message, crate::merkle::MerkleNode, crate::commit::DigestProtocol> for crate::merkle::MerkleNode {
    type CommitError = ();

    /// Embedding a message into a digest container never fails.
    open spec fn embed_ok_spec(&self, msg: crate::multi_commit::Message) -> bool {
        true
    }

    /// The embedded content: the tagged hash of the original digest
    /// followed by the message digest.
    open spec fn embed_view_spec(&self, msg: crate::multi_commit::Message) -> Seq<u8> {
        crate::tagged_hash::tagged_hash_of(embed_tag_spec(), self@ + msg@)
    }

    open spec fn embed_proof_spec(&self, msg: crate::multi_commit::Message) -> crate::merkle::MerkleNode {
        *self
    }

    open spec fn embed_err_spec(&self, msg: crate::multi_commit::Message) -> () {
        ()
    }

    proof fn lemma_embed_restores(
        &self,
        msg: crate::multi_commit::Message,
        commit_container: crate::merkle::MerkleNode,
    ) {
    }

    fn embed_commit(&mut self, msg: &crate::multi_commit::Message) -> (r: Result<
        crate::merkle::MerkleNode,
        (),
    >) {
        let original = *self;
        let mut payload = crate::tagged_hash::digest_to_vec(&self.0);
        let msg_bytes = crate::tagged_hash::digest_to_vec(&msg.0);
        crate::tagged_hash::push_bytes(&mut payload, &msg_bytes);
        let tag = embed_tag();
        *self = crate::merkle::MerkleNode::from_bytes(crate::tagged_hash::tagged_hash(
            &tag,
            &payload,
        ));
        Ok(original)
    }
}

/// Tamper sensitivity of the digest embed scheme: the proof restores
/// the true original whatever commitment container is presented, and
/// the replay recomputes the true embedded content, so by the contract
/// of [`EmbedCommitVerify::verify`] a presented container with any
/// other content yields `Ok(false)`, never `Ok(true)`.
pub proof fn lemma_digest_embed_tamper(
    container: crate::merkle::MerkleNode,
    msg: crate::multi_commit::Message,
    presented: crate::merkle::MerkleNode,
)
    requires
        presented@ != crate::tagged_hash::tagged_hash_of(embed_tag_spec(), container@ + msg@),
    ensures
        ({
            let p = container.embed_proof_spec(msg);
            let orig = p.restore_spec(presented);
            &&& orig == container
            &&& orig.embed_ok_spec(msg)
            &&& presented@ != orig.embed_view_spec(msg)
        }),
{
}

} // verus!
