//! Primitives for cryptographic commit-verify schemes used in
//! client-side validation.
//!
//! A *committer* binds a container (and, for some schemes, an external
//! supplement) to a message, producing a commitment that a verifier can
//! recompute deterministically from a small proof.  The crate provides
//! the commit-verify trait family, domain-separated tagged hashing,
//! Merkle-tree commitments over ordered leaf sequences, and the
//! fixed-capacity multi-message commitment block.

pub mod commit;
pub mod convolve;
pub mod embed;
pub mod merkle;
pub mod multi_commit;
pub mod tagged_hash;

pub use commit::{CommitEncode, CommitmentProtocol, CommitVerify, DigestProtocol, TryCommitVerify,
    VerifyEq};
pub use convolve::{ConvolveCommit, ConvolveCommitProof, DigestConvolveProof};
pub use embed::{EmbedCommitProof, EmbedCommitVerify};
pub use merkle::{merklize, MerkleNode, MerkleSource, ToMerkleSource};
pub use multi_commit::{Message, MultiCommitBlock, MultiCommitError, MultiCommitItem, MultiSource,
    ProtocolId};
pub use tagged_hash::TaggedHash;
