//! The baseline commit-verify scheme and its shared supporting traits.
//!
//! A container commits to a message, producing a commitment that the
//! verifier recomputes from the presented container and compares with
//! the dedicated verify-equal operator.  The fallible variant reports a
//! typed error when the container state is structurally invalid for
//! commitment.

use vstd::prelude::*;

verus! {

/// Dedicated commitment comparison.  Commitments are compared through
/// their committed content (the view), never through raw structural
/// equality, since a container representation may admit several
/// encodings of one committed value.
pub trait VerifyEq: View {
    /// Compares the committed content of two values.
    fn verify_eq(&self, other: &Self) -> (r: bool)
        ensures
            r == (self@ == other@),
    ;
}

/// Marker for a commitment protocol: context and configuration under
/// which a container type commits.  Implemented by zero-sized marker
/// types so that one container can commit under several protocols.
pub trait CommitmentProtocol {
}

/// The protocol under which this crate's digest containers commit.
pub struct DigestProtocol;

impl CommitmentProtocol for DigestProtocol {
}

/// Canonical byte serialization of a message: two equal values always
/// produce the same bytes, so hashing the encoding commits to the value.
pub trait CommitEncode {
    /// The canonical byte sequence of this value.
    spec fn commit_encode_spec(&self) -> Seq<u8>;

    /// Produces the canonical byte sequence of this value.
    fn commit_encode(&self) -> (r: Vec<u8>)
        ensures
            r@ == self.commit_encode_spec(),
    ;
}

/// The baseline commit-verify scheme: committing is a pure function of
/// the container and the message, and verification recomputes the
/// commitment and compares it with the presented one.
pub trait CommitVerify<Msg> where Self: Sized {
    /// The commitment value this container produces.
    type Commitment: VerifyEq;

    /// The committed content produced for `msg`.
    spec fn commit_spec(&self, msg: Msg) -> <Self::Commitment as View>::V;

    /// Commits this container to `msg`.
    fn commit(&self, msg: &Msg) -> (r: Self::Commitment)
        ensures
            r@ == self.commit_spec(*msg),
    ;

    /// Verifies that `commitment` is this container's commitment to
    /// `msg`, by recomputing and comparing verify-equal.  The result is
    /// true exactly when the presented commitment carries the content
    /// that committing would produce: the round trip
    /// `verify(msg, commit(msg))` always holds.
    fn verify(&self, msg: &Msg, commitment: &Self::Commitment) -> (r: bool)
        ensures
            r == (commitment@ == self.commit_spec(*msg)),
    {
        let c = self.commit(msg);
        commitment.verify_eq(&c)
    }
}

/// The fallible commit-verify scheme, for containers whose state may be
/// structurally invalid for commitment (a size limit, an exhausted
/// capacity).  Success and failure are pinned: the error comes exactly
/// on the inputs the success condition excludes.
pub trait TryCommitVerify<Msg> where Self: Sized {
    /// The commitment value this container produces.
    type Commitment: VerifyEq;

    /// The construction error this container reports.
    type Error;

    /// Whether committing this container to `msg` succeeds.
    spec fn try_commit_ok_spec(&self, msg: Msg) -> bool;

    /// The committed content produced for `msg` on success.
    spec fn try_commit_view_spec(&self, msg: Msg) -> <Self::Commitment as View>::V;

    /// The error reported for `msg` on failure.
    spec fn try_commit_err_spec(&self, msg: Msg) -> Self::Error;

    /// Commits this container to `msg`, or reports the typed
    /// construction error; nothing is silently dropped.
    fn try_commit(&self, msg: &Msg) -> (r: Result<Self::Commitment, Self::Error>)
        ensures
            (r is Ok) == self.try_commit_ok_spec(*msg),
            r matches Ok(c) ==> c@ == self.try_commit_view_spec(*msg),
            r matches Err(e) ==> e == self.try_commit_err_spec(*msg),
    ;
}

impl CommitVerify<crate::multi_commit::Message> for crate::tagged_hash::TaggedHash {
    type Commitment = crate::merkle::MerkleNode;

    /// A hashing domain commits to a message digest by hashing it
    /// under its tag.
    open spec fn commit_spec(&self, msg: crate::multi_commit::Message) -> Seq<u8> {
        crate::tagged_hash::tagged_hash_of(self.tag_spec(), msg@)
    }

    fn commit(&self, msg: &crate::multi_commit::Message) -> (r: crate::merkle::MerkleNode) {
        let payload = crate::tagged_hash::digest_to_vec(&msg.0);
        crate::merkle::MerkleNode::from_bytes(self.hash(&payload))
    }
}

} // verus!
