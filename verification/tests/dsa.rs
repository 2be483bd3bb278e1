use krabipqc::internal::{verify_internal, verify_internal_impl_pieces};
use krabipqc::params::ml_dsa_44_params;
use krabipqc::{ml_dsa_44, ml_dsa_65, ml_dsa_87, PreHash};

#[test]
fn verify_rejects_zero_signature() {
    let pk = [0u8; ml_dsa_44::PK_BYTES];
    let sig = [0u8; ml_dsa_44::SIG_BYTES];
    assert!(!ml_dsa_44::verify(&pk, b"msg", b"", &sig));
    assert!(!ml_dsa_44::verify_msg_repr(&pk, b"msg", &sig));
}

#[test]
fn verify_rejects_long_context() {
    let pk = [0u8; ml_dsa_65::PK_BYTES];
    let sig = [0u8; ml_dsa_65::SIG_BYTES];
    let long = [0u8; 256];
    assert!(!ml_dsa_65::verify(&pk, b"m", &long, &sig));
    let ph = PreHash::Sha256([0u8; 32]);
    assert!(!ml_dsa_65::hash_verify(&pk, ph, &long, &sig));
}

#[test]
fn verify_rejects_wrong_lengths() {
    let params = ml_dsa_44_params();
    let pk = vec![0u8; params.pk_bytes - 1];
    let sig = vec![0u8; params.sig_bytes];
    assert!(!verify_internal(&params, &pk, b"m", &sig));
    let pk = vec![0u8; params.pk_bytes];
    let sig = vec![0u8; params.sig_bytes + 1];
    assert!(!verify_internal(&params, &pk, b"m", &sig));
}

#[test]
fn verify_rejects_too_many_pieces() {
    let params = ml_dsa_44_params();
    let pk = vec![0u8; params.pk_bytes];
    let sig = vec![0u8; params.sig_bytes];
    let pieces: [&[u8]; 7] = [b"a", b"b", b"c", b"d", b"e", b"f", b"g"];
    assert!(!verify_internal_impl_pieces(&params, &pk, &pieces, &sig));
}

#[test]
fn verify_rejects_malformed_hint() {
    // A hint whose first row bound exceeds omega is malformed.
    let pk = [0u8; ml_dsa_87::PK_BYTES];
    let mut sig = [0u8; ml_dsa_87::SIG_BYTES];
    let omega = 75;
    let k = 8;
    let hint_off = ml_dsa_87::SIG_BYTES - omega - k;
    sig[hint_off + omega] = (omega + 1) as u8;
    assert!(!ml_dsa_87::verify(&pk, b"", b"", &sig));
}

#[test]
fn prehash_oids() {
    let a = PreHash::Sha256([1u8; 32]);
    let b = PreHash::Sha512([2u8; 64]);
    assert_eq!(a.oid()[10], 0x01);
    assert_eq!(b.oid()[10], 0x03);
    assert_eq!(a.oid()[..10], b.oid()[..10]);
    assert_eq!(a.digest(), &[1u8; 32][..]);
    assert_eq!(b.digest().len(), 64);
}
