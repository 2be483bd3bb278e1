//! ML-DSA-87 (FIPS 204 parameter set 3): k = 8, l = 7, eta = 2, tau = 60,
//! lambda = 256. Public key 2592 bytes, signature 4627 bytes.

use vstd::prelude::*;

use crate::hashing::{concat_pieces, lemma_concat_prepend, lemma_concat_small, pieces_of};
use crate::internal::{verify_accepts, verify_internal_impl, verify_internal_impl_pieces};
use crate::params::{ml_dsa_87_params, ml_dsa_87_spec};
use crate::PreHash;

verus! {

/// Public-key length.
pub const PK_BYTES: usize = 2592;

/// Secret-key length.
pub const SK_BYTES: usize = 4896;

/// Signature length.
pub const SIG_BYTES: usize = 4627;

/// ML-DSA.Verify_internal (FIPS 204 Alg 8) on a message representative
/// `M'` built by the caller.
pub fn verify_msg_repr(pk: &[u8; PK_BYTES], m_prime: &[u8], sig: &[u8; SIG_BYTES]) -> (r: bool)
    ensures
        r == verify_accepts(ml_dsa_87_spec(), pk@, m_prime@, sig@),
{
    let params = ml_dsa_87_params();
    verify_internal_impl(&params, pk, m_prime, sig)
}

/// ML-DSA.Verify (FIPS 204 Alg 3) of `sig` on `m` with the context
/// string `ctx`: `M' = 0 || |ctx| || ctx || m`, absorbed piece by piece.
/// A context longer than 255 bytes is rejected.
pub fn verify(pk: &[u8; PK_BYTES], m: &[u8], ctx: &[u8], sig: &[u8; SIG_BYTES]) -> (r: bool)
    ensures
        r == (ctx.len() <= 255 && verify_accepts(
            ml_dsa_87_spec(),
            pk@,
            seq![0u8, ctx.len() as u8] + ctx@ + m@,
            sig@,
        )),
{
    if ctx.len() > 255 {
        return false;
    }
    let params = ml_dsa_87_params();
    let header: [u8; 2] = [0u8, ctx.len() as u8];
    let pieces: [&[u8]; 3] = [&header, ctx, m];
    proof {
        lemma_concat_small(pieces@);
        assert(header@ =~= seq![0u8, ctx.len() as u8]);
    }
    verify_internal_impl_pieces(&params, pk, &pieces, sig)
}

/// HashML-DSA.Verify (FIPS 204 Alg 5) with an externally computed
/// digest: `M' = 1 || |ctx| || ctx || OID || digest`. A context longer
/// than 255 bytes is rejected.
pub fn hash_verify(pk: &[u8; PK_BYTES], ph: PreHash, ctx: &[u8], sig: &[u8; SIG_BYTES]) -> (r: bool)
    ensures
        r == (ctx.len() <= 255 && verify_accepts(
            ml_dsa_87_spec(),
            pk@,
            seq![1u8, ctx.len() as u8] + ctx@ + ph.spec_oid() + ph.spec_digest(),
            sig@,
        )),
{
    if ctx.len() > 255 {
        return false;
    }
    let params = ml_dsa_87_params();
    let header: [u8; 2] = [1u8, ctx.len() as u8];
    let oid = ph.oid();
    let digest = ph.digest();
    let pieces: [&[u8]; 4] = [&header, ctx, &oid, digest];
    proof {
        let rest: [&[u8]; 3] = [ctx, &oid, digest];
        lemma_concat_small(rest@);
        assert(pieces_of(pieces@) =~= seq![header@] + pieces_of(rest@));
        lemma_concat_prepend(header@, pieces_of(rest@));
        assert(header@ =~= seq![1u8, ctx.len() as u8]);
        assert(header@ + (ctx@ + oid@ + digest@) =~= header@ + ctx@ + oid@ + digest@);
    }
    verify_internal_impl_pieces(&params, pk, &pieces, sig)
}

} // verus!
