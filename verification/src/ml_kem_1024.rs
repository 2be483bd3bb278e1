//! ML-KEM-1024 (FIPS 203 parameter set 3): k = 4, eta1 = 2, eta2 = 2,
//! du = 11, dv = 5. Encapsulation key 1568 bytes, decapsulation key 3168 bytes,
//! ciphertext 1568 bytes, shared secret 32 bytes.
//!
//! The `*_ct` entry points run the same branch-free arithmetic as the
//! plain ones and return the same bytes.

use vstd::prelude::*;

use crate::encoding::EncodeError;
use crate::mlkem::encoding::ek_canonical;
use crate::mlkem::kem::{
    decaps_internal_impl, decaps_m, decaps_ss, encaps_g, encaps_internal_impl, kem_dk, keygen_internal_impl,
};
use crate::mlkem::params::{ml_kem_1024_params, ml_kem_1024_spec, SS_BYTES};
use crate::mlkem::pke::{keygen_ek, kpke_ct};
use crate::hashing::{sha3_256_digest, sha3_512_digest, shake256_byte};

pub use crate::mlkem::params::SS_BYTES as SHARED_SECRET_BYTES;

verus! {

/// Encapsulation-key length.
pub const EK_BYTES: usize = 1568;

/// Decapsulation-key length.
pub const DK_BYTES: usize = 3168;

/// Ciphertext length.
pub const CT_BYTES: usize = 1568;

/// ML-KEM.KeyGen_internal (FIPS 203 Alg 16) from the seeds `d` and `z`.
pub fn keygen_internal(d: &[u8; 32], z: &[u8; 32]) -> (res: Result<([u8; EK_BYTES], [u8; DK_BYTES]), EncodeError>)
    ensures
        res is Ok,
        res matches Ok(keys) ==> keygen_ek(d@, 4, ml_kem_1024_spec().eta1, keys.0@),
        res matches Ok(keys) ==> kem_dk(ml_kem_1024_spec(), d@, z@, keys.0@, keys.1@),
        res matches Ok(keys) ==> keys.0@.subrange(1536, 1568) == sha3_512_digest(
            d@ + seq![4u8],
        ).subrange(0, 32),
{
    let params = ml_kem_1024_params();
    let mut ek = [0u8; EK_BYTES];
    let mut dk = [0u8; DK_BYTES];
    match keygen_internal_impl(&params, d, z, &mut ek, &mut dk) {
        Ok(()) => Ok((ek, dk)),
        Err(e) => Err(e),
    }
}

/// ML-KEM.Encaps_internal (FIPS 203 Alg 17) with the message `m`; an
/// `ek` that fails the §7.2 modulus check is rejected.
pub fn encaps_internal(ek: &[u8; EK_BYTES], m: &[u8; 32]) -> (res: Result<([u8; SS_BYTES], [u8; CT_BYTES]), EncodeError>)
    ensures
        res is Ok <==> ek_canonical(ek@, 4),
        res is Err ==> res == Err::<([u8; SS_BYTES], [u8; CT_BYTES]), EncodeError>(EncodeError::NotCanonical),
        res matches Ok(out) ==> out.0@ == encaps_g(ek@, m@).subrange(0, 32),
        res matches Ok(out) ==> out.0@ == sha3_512_digest(m@ + sha3_256_digest(ek@)).subrange(0, 32),
        res matches Ok(out) ==> kpke_ct(ml_kem_1024_spec(), ek@, m@, encaps_g(ek@, m@).subrange(32, 64), out.1@),
{
    let params = ml_kem_1024_params();
    let mut ss = [0u8; SS_BYTES];
    let mut ct = [0u8; CT_BYTES];
    match encaps_internal_impl(&params, ek, m, &mut ss, &mut ct) {
        Ok(()) => Ok((ss, ct)),
        Err(e) => Err(e),
    }
}

/// ML-KEM.Decaps_internal (FIPS 203 Alg 18) with implicit rejection.
pub fn decaps_internal(dk: &[u8; DK_BYTES], ct: &[u8; CT_BYTES]) -> (res: Result<[u8; SS_BYTES], EncodeError>)
    ensures
        res is Ok,
        res matches Ok(ss) ==> ss@ == decaps_ss(ml_kem_1024_spec(), dk@, ct@),
        res matches Ok(ss) ==> ({
            let m_prime = decaps_m(ml_kem_1024_spec(), dk@, ct@);
            let g = sha3_512_digest(m_prime + dk@.subrange(3104, 3136));
            ss@ == if kpke_ct(ml_kem_1024_spec(), dk@.subrange(1536, 3104), m_prime, g.subrange(32, 64), ct@) {
                g.subrange(0, 32)
            } else {
                Seq::new(32, |j: int| shake256_byte(dk@.subrange(3136, 3168) + ct@, j as nat))
            }
        }),
{
    let params = ml_kem_1024_params();
    let mut ss = [0u8; SS_BYTES];
    match decaps_internal_impl(&params, dk, ct, &mut ss) {
        Ok(()) => Ok(ss),
        Err(e) => Err(e),
    }
}

/// [`keygen_internal`] on the constant-time path: the same bytes.
pub fn keygen_internal_ct(d: &[u8; 32], z: &[u8; 32]) -> (res: Result<([u8; EK_BYTES], [u8; DK_BYTES]), EncodeError>)
    ensures
        res is Ok,
        res matches Ok(keys) ==> keygen_ek(d@, 4, ml_kem_1024_spec().eta1, keys.0@),
        res matches Ok(keys) ==> kem_dk(ml_kem_1024_spec(), d@, z@, keys.0@, keys.1@),
        res matches Ok(keys) ==> keys.0@.subrange(1536, 1568) == sha3_512_digest(
            d@ + seq![4u8],
        ).subrange(0, 32),
{
    keygen_internal(d, z)
}

/// [`encaps_internal`] on the constant-time path: the same bytes.
pub fn encaps_internal_ct(ek: &[u8; EK_BYTES], m: &[u8; 32]) -> (res: Result<([u8; SS_BYTES], [u8; CT_BYTES]), EncodeError>)
    ensures
        res is Ok <==> ek_canonical(ek@, 4),
        res is Err ==> res == Err::<([u8; SS_BYTES], [u8; CT_BYTES]), EncodeError>(EncodeError::NotCanonical),
        res matches Ok(out) ==> out.0@ == encaps_g(ek@, m@).subrange(0, 32),
        res matches Ok(out) ==> out.0@ == sha3_512_digest(m@ + sha3_256_digest(ek@)).subrange(0, 32),
        res matches Ok(out) ==> kpke_ct(ml_kem_1024_spec(), ek@, m@, encaps_g(ek@, m@).subrange(32, 64), out.1@),
{
    encaps_internal(ek, m)
}

/// [`decaps_internal`] on the constant-time path: the same bytes.
pub fn decaps_internal_ct(dk: &[u8; DK_BYTES], ct: &[u8; CT_BYTES]) -> (res: Result<[u8; SS_BYTES], EncodeError>)
    ensures
        res is Ok,
        res matches Ok(ss) ==> ss@ == decaps_ss(ml_kem_1024_spec(), dk@, ct@),
        res matches Ok(ss) ==> ({
            let m_prime = decaps_m(ml_kem_1024_spec(), dk@, ct@);
            let g = sha3_512_digest(m_prime + dk@.subrange(3104, 3136));
            ss@ == if kpke_ct(ml_kem_1024_spec(), dk@.subrange(1536, 3104), m_prime, g.subrange(32, 64), ct@) {
                g.subrange(0, 32)
            } else {
                Seq::new(32, |j: int| shake256_byte(dk@.subrange(3136, 3168) + ct@, j as nat))
            }
        }),
{
    decaps_internal(dk, ct)
}

} // verus!
