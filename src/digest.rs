//! The SHA-2 digests used by the signature encodings, computed by `sha2`.
use vstd::prelude::*;
use sha2::Digest;

verus! {

/// The SHA-256 digest of a byte string.
pub uninterp spec fn sha256_of(m: Seq<u8>) -> Seq<u8>;

/// The SHA-384 digest of a byte string.
pub uninterp spec fn sha384_of(m: Seq<u8>) -> Seq<u8>;

/// The SHA-512 digest of a byte string.
pub uninterp spec fn sha512_of(m: Seq<u8>) -> Seq<u8>;

/// Relies on `sha2::Sha256::digest`: the SHA-256 digest, 32 bytes long.
#[verifier::external_body]
fn sha256(m: &[u8]) -> (r: Vec<u8>)
    ensures
        r@ == sha256_of(m@),
        r@.len() == 32,
{
    sha2::Sha256::digest(m).to_vec()
}

/// Relies on `sha2::Sha384::digest`: the SHA-384 digest, 48 bytes long.
#[verifier::external_body]
fn sha384(m: &[u8]) -> (r: Vec<u8>)
    ensures
        r@ == sha384_of(m@),
        r@.len() == 48,
{
    sha2::Sha384::digest(m).to_vec()
}

/// Relies on `sha2::Sha512::digest`: the SHA-512 digest, 64 bytes long.
#[verifier::external_body]
fn sha512(m: &[u8]) -> (r: Vec<u8>)
    ensures
        r@ == sha512_of(m@),
        r@.len() == 64,
{
    sha2::Sha512::digest(m).to_vec()
}

/// A digest algorithm of the SHA-2 family.
#[derive(Debug, Clone, Copy, PartialEq, Eq, Structural)]
pub enum DigestAlgorithm {
    Sha256,
    Sha384,
    Sha512,
}

/// The digest of `m` under `alg`.
pub open spec fn digest_of(alg: DigestAlgorithm, m: Seq<u8>) -> Seq<u8> {
    match alg {
        DigestAlgorithm::Sha256 => sha256_of(m),
        DigestAlgorithm::Sha384 => sha384_of(m),
        DigestAlgorithm::Sha512 => sha512_of(m),
    }
}

/// The length in bytes of a digest under `alg`.
pub open spec fn output_len_of(alg: DigestAlgorithm) -> nat {
    match alg {
        DigestAlgorithm::Sha256 => 32,
        DigestAlgorithm::Sha384 => 48,
        DigestAlgorithm::Sha512 => 64,
    }
}

impl DigestAlgorithm {
    /// The length in bytes of this algorithm's digests.
    pub fn output_len(&self) -> (r: usize)
        ensures
            r == output_len_of(*self),
            32 <= r <= 64,
    {
        match self {
            DigestAlgorithm::Sha256 => 32,
            DigestAlgorithm::Sha384 => 48,
            DigestAlgorithm::Sha512 => 64,
        }
    }
}

/// Digests `m` with `alg`.
pub fn digest(alg: DigestAlgorithm, m: &[u8]) -> (r: Vec<u8>)
    ensures
        r@ == digest_of(alg, m@),
        r@.len() == output_len_of(alg),
{
    match alg {
        DigestAlgorithm::Sha256 => sha256(m),
        DigestAlgorithm::Sha384 => sha384(m),
        DigestAlgorithm::Sha512 => sha512(m),
    }
}

} // verus!
