//! Domain-separated tagged hashing.
//!
//! A *tag* (a byte string naming a domain) derives a fixed prefix: the
//! 32-byte digest of the tag, absorbed twice before any payload.  Every
//! digest produced under a tag therefore starts from a tag-specific
//! midstate, so digests computed under different tags can never collide
//! on identical payload bytes.

use vstd::prelude::*;

verus! {

/// The 32-byte digest that SHA-256 assigns to a byte sequence.
pub uninterp spec fn sha256_of(data: Seq<u8>) -> Seq<u8>;

/// Relies on `bitcoin_hashes::sha256::Hash::hash`: computes the 32-byte
/// SHA-256 digest of the input bytes, a function of the bytes alone.
#[verifier::external_body]
fn sha256_digest(data: &Vec<u8>) -> (r: [u8; 32])
    ensures
        r@ == sha256_of(data@),
{
    bitcoin_hashes::sha256::Hash::hash(data.as_slice()).to_byte_array()
}

/// The digest a tagged hash assigns to `data` under domain `tag`:
/// SHA-256 of the tag's digest, twice, followed by the payload.
pub open spec fn tagged_hash_of(tag: Seq<u8>, data: Seq<u8>) -> Seq<u8> {
    sha256_of(sha256_of(tag) + sha256_of(tag) + data)
}

/// Copies a 32-byte digest into a growable byte buffer.
pub fn push_digest(buf: &mut Vec<u8>, digest: &[u8; 32])
    ensures
        final(buf)@ == old(buf)@ + digest@,
{
    let mut i: usize = 0;
    while i < 32
        invariant
            i <= 32,
            buf@ == old(buf)@ + digest@.subrange(0, i as int),
        decreases 32 - i,
    {
        buf.push(digest[i]);
        proof {
            assert(buf@ =~= old(buf)@ + digest@.subrange(0, i + 1));
        }
        i = i + 1;
    }
    proof {
        assert(buf@ =~= old(buf)@ + digest@);
    }
}

/// Copies a byte vector onto the end of a growable byte buffer.
pub fn push_bytes(buf: &mut Vec<u8>, bytes: &Vec<u8>)
    ensures
        final(buf)@ == old(buf)@ + bytes@,
{
    let mut i: usize = 0;
    while i < bytes.len()
        invariant
            i <= bytes@.len(),
            buf@ == old(buf)@ + bytes@.subrange(0, i as int),
        decreases bytes@.len() - i,
    {
        buf.push(bytes[i]);
        proof {
            assert(buf@ =~= old(buf)@ + bytes@.subrange(0, i + 1));
        }
        i = i + 1;
    }
    proof {
        assert(buf@ =~= old(buf)@ + bytes@);
    }
}

/// Copies a 32-byte digest into a fresh byte vector.
pub fn digest_to_vec(digest: &[u8; 32]) -> (r: Vec<u8>)
    ensures
        r@ == digest@,
{
    let mut buf: Vec<u8> = Vec::new();
    push_digest(&mut buf, digest);
    buf
}

/// Hashes `data` under the domain `tag`.
pub fn tagged_hash(tag: &Vec<u8>, data: &Vec<u8>) -> (r: [u8; 32])
    ensures
        r@ == tagged_hash_of(tag@, data@),
{
    let th = sha256_digest(tag);
    let mut buf: Vec<u8> = Vec::new();
    push_digest(&mut buf, &th);
    push_digest(&mut buf, &th);
    push_bytes(&mut buf, data);
    sha256_digest(&buf)
}

/// Compares two 32-byte digests for byte-wise equality.
pub fn digest_eq(a: &[u8; 32], b: &[u8; 32]) -> (r: bool)
    ensures
        r == (a@ == b@),
{
    let mut i: usize = 0;
    while i < 32
        invariant
            i <= 32,
            forall|j: int| 0 <= j < i ==> a@[j] == b@[j],
        decreases 32 - i,
    {
        if a[i] != b[i] {
            return false;
        }
        i = i + 1;
    }
    proof {
        assert(a@ =~= b@);
    }
    true
}

/// A named hashing domain: a tag whose digest prefixes all hashing done
/// under it, keeping its digests apart from every other domain's.
pub struct TaggedHash {
    tag: Vec<u8>,
}

impl TaggedHash {
    /// The domain tag this hasher was created with.
    pub closed spec fn tag_spec(&self) -> Seq<u8> {
        self.tag@
    }

    /// Creates the hashing domain named by `tag`.
    pub fn new(tag: Vec<u8>) -> (r: Self)
        ensures
            r.tag_spec() == tag@,
    {
        TaggedHash { tag }
    }

    /// Hashes `data` within this domain.
    pub fn hash(&self, data: &Vec<u8>) -> (r: [u8; 32])
        ensures
            r@ == tagged_hash_of(self.tag_spec(), data@),
    {
        tagged_hash(&self.tag, data)
    }
}

} // verus!
