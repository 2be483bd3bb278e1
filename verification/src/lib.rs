//! `no_std`-style ML-DSA (FIPS 204) and ML-KEM (FIPS 203) building blocks
//! with machine-checked contracts.

pub mod ct;
pub mod field;
pub mod params;
pub mod poly;
pub mod polyvec;
pub mod bits;
pub mod encoding;
pub mod sampling;
pub mod rounding;
pub mod mlkem;
pub mod hashing;
pub mod ntt;
pub mod blinding;
pub mod ml_kem_512;
pub mod ml_kem_768;
pub mod ml_kem_1024;
pub mod internal;
pub mod ml_dsa_44;
pub mod ml_dsa_65;
pub mod ml_dsa_87;
pub mod markers;
pub mod sums;
pub mod ntt_mul;

pub use encoding::EncodeError;
pub use markers::{MlDsa44, MlDsa65, MlDsa87, MlKem1024, MlKem512, MlKem768, Sealed};

use vstd::prelude::*;

verus! {

/// DER encoding of the SHA-256 OID 2.16.840.1.101.3.4.2.1.
pub const SHA256_OID: [u8; 11] = [0x06, 0x09, 0x60, 0x86, 0x48, 0x01, 0x65, 0x03, 0x04, 0x02, 0x01];

/// DER encoding of the SHA-512 OID 2.16.840.1.101.3.4.2.3.
pub const SHA512_OID: [u8; 11] = [0x06, 0x09, 0x60, 0x86, 0x48, 0x01, 0x65, 0x03, 0x04, 0x02, 0x03];

/// Pre-hash selector for HashML-DSA (`hash_verify` on the per-set
/// modules): the externally computed digest, and through its variant
/// the OID of the hash function the signature binds it to.
#[derive(Clone, Copy, Debug, PartialEq, Eq)]
#[non_exhaustive]
pub enum PreHash {
    /// SHA-256 pre-hash, OID 2.16.840.1.101.3.4.2.1.
    Sha256([u8; 32]),
    /// SHA-512 pre-hash, OID 2.16.840.1.101.3.4.2.3.
    Sha512([u8; 64]),
}

impl PreHash {
    /// The DER-encoded OID of the pre-hash function.
    pub open spec fn spec_oid(self) -> Seq<u8> {
        match self {
            PreHash::Sha256(_) => SHA256_OID@,
            PreHash::Sha512(_) => SHA512_OID@,
        }
    }

    /// The digest bytes.
    pub open spec fn spec_digest(self) -> Seq<u8> {
        match self {
            PreHash::Sha256(d) => d@,
            PreHash::Sha512(d) => d@,
        }
    }

    /// The DER-encoded OID of the pre-hash function.
    pub fn oid(&self) -> (r: [u8; 11])
        ensures
            r@ == self.spec_oid(),
    {
        match self {
            PreHash::Sha256(_) => SHA256_OID,
            PreHash::Sha512(_) => SHA512_OID,
        }
    }

    /// The digest bytes.
    pub fn digest(&self) -> (r: &[u8])
        ensures
            r@ == self.spec_digest(),
    {
        match self {
            PreHash::Sha256(d) => d,
            PreHash::Sha512(d) => d,
        }
    }
}

/// Error of the RNG-driven signing entry points: the context string is
/// longer than 255 bytes, the RNG failed (with its own error), or a
/// buffer / codec mismatch.
#[derive(Debug, Clone, Copy, PartialEq, Eq)]
#[non_exhaustive]
pub enum SignError<E> {
    CtxTooLong,
    Rng(E),
    Encode(EncodeError),
}

impl<E> From<EncodeError> for SignError<E> {
    fn from(e: EncodeError) -> (r: Self) {
        SignError::Encode(e)
    }
}

impl<E> vstd::std_specs::convert::FromSpecImpl<EncodeError> for SignError<E> {
    open spec fn obeys_from_spec() -> bool {
        true
    }

    open spec fn from_spec(e: EncodeError) -> Self {
        SignError::Encode(e)
    }
}

/// Error of the RNG-driven key generation and encapsulation entry
/// points: the RNG failed (with its own error), or a buffer / codec
/// mismatch.
#[derive(Debug, Clone, Copy, PartialEq, Eq)]
#[non_exhaustive]
pub enum RandError<E> {
    Rng(E),
    Encode(EncodeError),
}

impl<E> From<EncodeError> for RandError<E> {
    fn from(e: EncodeError) -> (r: Self) {
        RandError::Encode(e)
    }
}

impl<E> vstd::std_specs::convert::FromSpecImpl<EncodeError> for RandError<E> {
    open spec fn obeys_from_spec() -> bool {
        true
    }

    open spec fn from_spec(e: EncodeError) -> Self {
        RandError::Encode(e)
    }
}

} // verus!
pub mod ntt_inverse;
