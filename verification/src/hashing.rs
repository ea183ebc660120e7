//! The hash functions a tree can be built with, and the three hashing
//! operations every tree and proof relies on: the hash of a leaf value, the
//! hash of two child hashes, and the hash of the empty input.

use vstd::prelude::*;

verus! {

/// The longest input, in bytes, that the hash functions accept: its length in
/// bits must fit in 64 bits.
pub const MAX_INPUT_LEN: u64 = 0x1fff_ffff_ffff_ffff;

/// The hash functions a tree can be built with. A tree and every proof taken
/// from it carry the algorithm they were made with.
#[derive(Clone, Copy, Debug, PartialEq, Eq, PartialOrd, Ord, Hash, Structural)]
pub enum HashAlgorithm {
    Sha1,
    Sha256,
    Sha384,
    Sha512,
    Sha512_256,
}

/// The digest that `algorithm` assigns to `data`.
pub uninterp spec fn digest_of(algorithm: HashAlgorithm, data: Seq<u8>) -> Seq<u8>;

/// The length in bytes of every digest of `algorithm`.
pub open spec fn digest_len(algorithm: HashAlgorithm) -> nat {
    match algorithm {
        HashAlgorithm::Sha1 => 20,
        HashAlgorithm::Sha256 => 32,
        HashAlgorithm::Sha384 => 48,
        HashAlgorithm::Sha512 => 64,
        HashAlgorithm::Sha512_256 => 32,
    }
}

/// The hash of a leaf that holds `value`.
pub open spec fn leaf_hash(algorithm: HashAlgorithm, value: Seq<u8>) -> Seq<u8> {
    digest_of(algorithm, value)
}

/// The hash of an internal node over its children's hashes: the digest of
/// `left` followed by `right`, with nothing between or around them.
pub open spec fn node_hash(algorithm: HashAlgorithm, left: Seq<u8>, right: Seq<u8>) -> Seq<u8> {
    digest_of(algorithm, left + right)
}

/// The hash of a tree without leaves.
pub open spec fn empty_hash(algorithm: HashAlgorithm) -> Seq<u8> {
    digest_of(algorithm, Seq::<u8>::empty())
}

/// Whether two hashes can be combined: together they are no longer than the
/// hash functions accept.
pub open spec fn combinable(left: Seq<u8>, right: Seq<u8>) -> bool {
    left.len() + right.len() <= MAX_INPUT_LEN
}

/// Calls `ring::digest::digest` with the algorithm that the variant stands for
/// and copies the digest's bytes out. Taken on trust: the digest is a function
/// of the algorithm and the input alone, and it is as long as the algorithm's
/// output length. `ring` fails on inputs whose length in bits does not fit in
/// 64 bits, so those are excluded.
#[verifier::external_body]
fn digest_bytes(algorithm: HashAlgorithm, data: &[u8]) -> (out: Vec<u8>)
    requires
        data@.len() <= MAX_INPUT_LEN,
    ensures
        out@ == digest_of(algorithm, data@),
        out@.len() == digest_len(algorithm),
{
    let alg: &'static ring::digest::Algorithm = match algorithm {
        HashAlgorithm::Sha1 => &ring::digest::SHA1_FOR_LEGACY_USE_ONLY,
        HashAlgorithm::Sha256 => &ring::digest::SHA256,
        HashAlgorithm::Sha384 => &ring::digest::SHA384,
        HashAlgorithm::Sha512 => &ring::digest::SHA512,
        HashAlgorithm::Sha512_256 => &ring::digest::SHA512_256,
    };
    ring::digest::digest(alg, data).as_ref().to_vec()
}

/// Whether `a` and `b` hold the same bytes.
pub fn bytes_eq(a: &[u8], b: &[u8]) -> (same: bool)
    ensures
        same == (a@ == b@),
{
    if a.len() != b.len() {
        return false;
    }
    let mut i: usize = 0;
    while i < a.len()
        invariant
            a@.len() == b@.len(),
            i <= a@.len(),
            a@.subrange(0, i as int) == b@.subrange(0, i as int),
        decreases a@.len() - i,
    {
        if a[i] != b[i] {
            assert(a@[i as int] != b@[i as int]);
            return false;
        }
        assert(a@.subrange(0, i + 1) == a@.subrange(0, i as int).push(a@[i as int]));
        assert(b@.subrange(0, i + 1) == b@.subrange(0, i as int).push(b@[i as int]));
        i += 1;
    }
    assert(a@ == a@.subrange(0, i as int));
    assert(b@ == b@.subrange(0, i as int));
    true
}

/// A copy of `bytes`.
pub fn copy_bytes(bytes: &[u8]) -> (out: Vec<u8>)
    ensures
        out@ == bytes@,
{
    let mut out: Vec<u8> = Vec::with_capacity(bytes.len());
    let mut i: usize = 0;
    while i < bytes.len()
        invariant
            i <= bytes@.len(),
            out@ == bytes@.subrange(0, i as int),
        decreases bytes@.len() - i,
    {
        out.push(bytes[i]);
        assert(bytes@.subrange(0, i + 1) == bytes@.subrange(0, i as int).push(bytes@[i as int]));
        i += 1;
    }
    assert(bytes@ == bytes@.subrange(0, i as int));
    out
}

impl HashAlgorithm {
    /// The hash of the empty input.
    pub fn hash_empty(self) -> (out: Vec<u8>)
        ensures
            out@ == empty_hash(self),
            out@.len() == digest_len(self),
    {
        let nothing: Vec<u8> = Vec::new();
        digest_bytes(self, nothing.as_slice())
    }

    /// The hash of a leaf that holds `value`.
    pub fn hash_leaf(self, value: &[u8]) -> (out: Vec<u8>)
        requires
            value@.len() <= MAX_INPUT_LEN,
        ensures
            out@ == leaf_hash(self, value@),
            out@.len() == digest_len(self),
    {
        digest_bytes(self, value)
    }

    /// The hash of an internal node whose children have the hashes `left` and
    /// `right`.
    pub fn hash_nodes(self, left: &[u8], right: &[u8]) -> (out: Vec<u8>)
        requires
            combinable(left@, right@),
        ensures
            out@ == node_hash(self, left@, right@),
            out@.len() == digest_len(self),
    {
        let mut joined: Vec<u8> = copy_bytes(left);
        let mut i: usize = 0;
        while i < right.len()
            invariant
                i <= right@.len(),
                joined@ == left@ + right@.subrange(0, i as int),
            decreases right@.len() - i,
        {
            joined.push(right[i]);
            assert(right@.subrange(0, i + 1) == right@.subrange(0, i as int).push(
                right@[i as int],
            ));
            i += 1;
        }
        assert(right@ == right@.subrange(0, i as int));
        digest_bytes(self, joined.as_slice())
    }
}

} // verus!
