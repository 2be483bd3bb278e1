use krabipqc::encoding::EncodeError;
use krabipqc::mlkem::kem::{ct_equal, decaps_internal_impl, encaps_internal_impl, keygen_internal_impl};
use krabipqc::mlkem::params::{
    ml_kem_1024_params, ml_kem_512_params, ml_kem_768_params, Params, SS_BYTES,
};
use krabipqc::mlkem::pke::{decrypt_impl, encrypt_impl, keygen_impl};
use krabipqc::{ml_kem_1024, ml_kem_512, ml_kem_768};

fn roundtrip<const K: usize>(params: &Params<K>) {
    let d = [0xAAu8; 32];
    let z = [0xBBu8; 32];
    let mut ek = vec![0u8; params.ek_bytes];
    let mut dk = vec![0u8; params.dk_bytes];
    keygen_internal_impl(params, &d, &z, &mut ek, &mut dk).unwrap();

    let m = [0xC5u8; 32];
    let mut ss_enc = [0u8; SS_BYTES];
    let mut ct = vec![0u8; params.ct_bytes];
    encaps_internal_impl(params, &ek, &m, &mut ss_enc, &mut ct).unwrap();

    let mut ss_dec = [0u8; SS_BYTES];
    decaps_internal_impl(params, &dk, &ct, &mut ss_dec).unwrap();
    assert_eq!(ss_dec, ss_enc, "shared secret mismatch");
}

#[test]
fn roundtrip_512() {
    roundtrip(&ml_kem_512_params());
}

#[test]
fn roundtrip_768() {
    roundtrip(&ml_kem_768_params());
}

#[test]
fn roundtrip_1024() {
    roundtrip(&ml_kem_1024_params());
}

#[test]
fn decaps_rejects_overlong_ct() {
    let params = &ml_kem_768_params();
    let d = [9u8; 32];
    let z = [10u8; 32];
    let mut ek = vec![0u8; params.ek_bytes];
    let mut dk = vec![0u8; params.dk_bytes];
    keygen_internal_impl(params, &d, &z, &mut ek, &mut dk).unwrap();

    let mut ss = [0u8; SS_BYTES];
    let mut ct = vec![0u8; params.ct_bytes];
    encaps_internal_impl(params, &ek, &[11u8; 32], &mut ss, &mut ct).unwrap();
    ct.push(0xAA);

    let mut bogus = [0u8; SS_BYTES];
    assert_eq!(
        decaps_internal_impl(params, &dk, &ct, &mut bogus),
        Err(EncodeError::BufferTooSmall)
    );
}

fn cross_personality_equiv<const K: usize>(params: &Params<K>) {
    let d = [0x5Au8; 32];
    let z = [0xA5u8; 32];
    let mut ek_a = vec![0u8; params.ek_bytes];
    let mut dk_a = vec![0u8; params.dk_bytes];
    let mut ek_b = vec![0u8; params.ek_bytes];
    let mut dk_b = vec![0u8; params.dk_bytes];
    keygen_internal_impl(params, &d, &z, &mut ek_a, &mut dk_a).unwrap();
    keygen_internal_impl(params, &d, &z, &mut ek_b, &mut dk_b).unwrap();
    assert_eq!(ek_a, ek_b, "ek mismatch");
    assert_eq!(dk_a, dk_b, "dk mismatch");

    let m = [0x6Cu8; 32];
    let mut ss_a = [0u8; SS_BYTES];
    let mut ss_b = [0u8; SS_BYTES];
    let mut ct_a = vec![0u8; params.ct_bytes];
    let mut ct_b = vec![0u8; params.ct_bytes];
    encaps_internal_impl(params, &ek_a, &m, &mut ss_a, &mut ct_a).unwrap();
    encaps_internal_impl(params, &ek_b, &m, &mut ss_b, &mut ct_b).unwrap();
    assert_eq!(ct_a, ct_b, "ciphertext mismatch");
    assert_eq!(ss_a, ss_b, "encaps ss mismatch");

    let mut dec_a = [0u8; SS_BYTES];
    let mut dec_b = [0u8; SS_BYTES];
    decaps_internal_impl(params, &dk_a, &ct_a, &mut dec_a).unwrap();
    decaps_internal_impl(params, &dk_b, &ct_b, &mut dec_b).unwrap();
    assert_eq!(dec_a, dec_b, "decaps ss mismatch");
    assert_eq!(dec_a, ss_a, "encaps/decaps disagree");
}

#[test]
fn cross_personality_equiv_512() {
    cross_personality_equiv(&ml_kem_512_params());
}

#[test]
fn cross_personality_equiv_768() {
    cross_personality_equiv(&ml_kem_768_params());
}

#[test]
fn cross_personality_equiv_1024() {
    cross_personality_equiv(&ml_kem_1024_params());
}

#[test]
fn encaps_rejects_non_canonical_ek() {
    let params = &ml_kem_768_params();
    let d = [4u8; 32];
    let z = [5u8; 32];
    let mut ek = vec![0u8; params.ek_bytes];
    let mut dk = vec![0u8; params.dk_bytes];
    keygen_internal_impl(params, &d, &z, &mut ek, &mut dk).unwrap();

    ek[0] = 0xFF;
    ek[1] = (ek[1] & 0xF0) | 0x0F;

    let mut ss = [0u8; SS_BYTES];
    let mut ct = vec![0u8; params.ct_bytes];
    assert_eq!(
        encaps_internal_impl(params, &ek, &[6u8; 32], &mut ss, &mut ct),
        Err(EncodeError::NotCanonical)
    );
}

#[test]
fn decaps_rejects_corrupted_ct() {
    let params = &ml_kem_768_params();
    let d = [1u8; 32];
    let z = [2u8; 32];
    let mut ek = vec![0u8; params.ek_bytes];
    let mut dk = vec![0u8; params.dk_bytes];
    keygen_internal_impl(params, &d, &z, &mut ek, &mut dk).unwrap();

    let mut ss_enc = [0u8; SS_BYTES];
    let mut ct = vec![0u8; params.ct_bytes];
    encaps_internal_impl(params, &ek, &[3u8; 32], &mut ss_enc, &mut ct).unwrap();

    ct[0] ^= 1;
    let mut ss_dec = [0u8; SS_BYTES];
    decaps_internal_impl(params, &dk, &ct, &mut ss_dec).unwrap();
    assert_ne!(ss_dec, ss_enc);
}

#[test]
fn pke_roundtrip_768() {
    let params = ml_kem_768_params();
    let d = [0x42u8; 32];
    let mut ek = vec![0u8; params.ek_bytes];
    let mut dk = vec![0u8; 384 * 3];
    keygen_impl(&params, &d, &mut ek, &mut dk).unwrap();

    let m = [0xC3u8; 32];
    let r = [0x77u8; 32];
    let mut ct = vec![0u8; params.ct_bytes];
    encrypt_impl(&params, &ek, &m, &r, &mut ct).unwrap();

    let mut m_back = [0u8; 32];
    decrypt_impl(&params, &dk, &ct, &mut m_back).unwrap();
    assert_eq!(m_back, m, "K-PKE roundtrip should recover the message");
}

#[test]
fn pke_buffer_errors() {
    let params = ml_kem_512_params();
    let d = [1u8; 32];
    let mut ek = vec![0u8; params.ek_bytes];
    let mut dk = vec![0u8; 384 * 2];
    let mut short_ek = vec![0u8; params.ek_bytes - 1];
    assert_eq!(keygen_impl(&params, &d, &mut short_ek, &mut dk), Err(EncodeError::BufferTooSmall));
    keygen_impl(&params, &d, &mut ek, &mut dk).unwrap();
    let mut ct = vec![0u8; params.ct_bytes - 1];
    let before = ct.clone();
    assert_eq!(
        encrypt_impl(&params, &ek[..params.ek_bytes - 1], &[0u8; 32], &[0u8; 32], &mut ct),
        Err(EncodeError::BufferTooSmall)
    );
    assert_eq!(ct, before);
    assert_eq!(
        encrypt_impl(&params, &ek, &[0u8; 32], &[0u8; 32], &mut ct),
        Err(EncodeError::BufferTooSmall)
    );
    let mut m = [0u8; 32];
    assert_eq!(
        decrypt_impl(&params, &dk, &ct, &mut m),
        Err(EncodeError::BufferTooSmall)
    );
    assert_eq!(m, [0u8; 32]);
}

#[test]
fn ct_equal_masks() {
    assert_eq!(ct_equal(&[1, 2, 3], &[1, 2, 3]), Ok(0xFF));
    assert_eq!(ct_equal(&[1, 2, 3], &[1, 2, 4]), Ok(0x00));
    assert_eq!(ct_equal(&[], &[]), Ok(0xFF));
    assert_eq!(ct_equal(&[1, 2], &[1, 2, 3]), Err(EncodeError::BufferTooSmall));
}

#[test]
fn keygen_internal_layout() {
    let params = ml_kem_512_params();
    let d = [7u8; 32];
    let z = [8u8; 32];
    let mut ek = vec![0u8; params.ek_bytes];
    let mut dk = vec![0u8; params.dk_bytes];
    keygen_internal_impl(&params, &d, &z, &mut ek, &mut dk).unwrap();
    let h = krabipqc::hashing::sha3_256(&[&ek]);
    assert_eq!(&dk[768..768 + 800], &ek[..]);
    assert_eq!(&dk[1568..1600], &h[..]);
    assert_eq!(&dk[1600..1632], &z[..]);
    let mut bad_dk = vec![0u8; params.dk_bytes + 1];
    assert_eq!(
        keygen_internal_impl(&params, &d, &z, &mut ek, &mut bad_dk),
        Err(EncodeError::BufferTooSmall)
    );
}

#[test]
fn kem_keygen_random_matches_internal() {
    let (ek_r, dk_r) = ml_kem_512::keygen_internal(&[0x51u8; 32], &[0x51u8; 32]).unwrap();
    let (ek_d, dk_d) = ml_kem_512::keygen_internal_ct(&[0x51u8; 32], &[0x51u8; 32]).unwrap();
    assert_eq!(ek_r, ek_d);
    assert_eq!(dk_r, dk_d);
}

#[test]
fn kem_encaps_random_roundtrip() {
    let (ek, dk) = ml_kem_512::keygen_internal(&[0x51u8; 32], &[0x52u8; 32]).unwrap();
    let (ss_enc, ct) = ml_kem_512::encaps_internal(&ek, &[0x53u8; 32]).unwrap();
    let ss_dec = ml_kem_512::decaps_internal(&dk, &ct).unwrap();
    assert_eq!(ss_enc, ss_dec);
}

#[test]
fn kem_encaps_cross_personality() {
    let (ek, _dk) = ml_kem_512::keygen_internal(&[0x51u8; 32], &[0x52u8; 32]).unwrap();
    let (ss1, ct1) = ml_kem_512::encaps_internal(&ek, &[0x53u8; 32]).unwrap();
    let (ss2, ct2) = ml_kem_512::encaps_internal_ct(&ek, &[0x53u8; 32]).unwrap();
    assert_eq!(ss1, ss2);
    assert_eq!(ct1, ct2);
}

#[test]
fn facades_roundtrip_768_1024() {
    let (ek, dk) = ml_kem_768::keygen_internal(&[1u8; 32], &[2u8; 32]).unwrap();
    let (ss, ct) = ml_kem_768::encaps_internal(&ek, &[3u8; 32]).unwrap();
    assert_eq!(ml_kem_768::decaps_internal_ct(&dk, &ct).unwrap(), ss);
    let (ek, dk) = ml_kem_1024::keygen_internal_ct(&[4u8; 32], &[5u8; 32]).unwrap();
    let (ss, ct) = ml_kem_1024::encaps_internal(&ek, &[6u8; 32]).unwrap();
    assert_eq!(ml_kem_1024::decaps_internal(&dk, &ct).unwrap(), ss);
    assert_eq!(ml_kem_1024::CT_BYTES, 1568);
    assert_eq!(ml_kem_768::SHARED_SECRET_BYTES, 32);
}

#[test]
fn facade_rejects_non_canonical_ek() {
    let (mut ek, _dk) = ml_kem_512::keygen_internal(&[9u8; 32], &[9u8; 32]).unwrap();
    ek[0] = 0xFF;
    ek[1] |= 0x0F;
    assert_eq!(ml_kem_512::encaps_internal(&ek, &[1u8; 32]), Err(EncodeError::NotCanonical));
}

#[test]
fn pke_short_buffers_keep_what_fit() {
    let params = ml_kem_512_params();
    let d = [5u8; 32];
    let mut ek = vec![0u8; params.ek_bytes];
    let mut dk = vec![0u8; 384 * 2];
    keygen_impl(&params, &d, &mut ek, &mut dk).unwrap();
    // An `ek` buffer too short for `t_hat` is left alone.
    let mut tiny_ek = vec![0x99u8; 100];
    let mut dk2 = vec![0x33u8; 384 * 2];
    assert!(keygen_impl(&params, &d, &mut tiny_ek, &mut dk2).is_err());
    assert!(tiny_ek.iter().all(|&b| b == 0x99));
    assert!(dk2.iter().all(|&b| b == 0x33));
    // A short `dk` buffer gets the rows that fit.
    let mut ek3 = vec![0u8; params.ek_bytes];
    let mut dk3 = vec![0x44u8; 384 + 10];
    assert!(keygen_impl(&params, &d, &mut ek3, &mut dk3).is_err());
    assert_eq!(ek3, ek);
    assert_eq!(&dk3[..384], &dk[..384]);
    assert!(dk3[384..].iter().all(|&b| b == 0x44));
    // A short ciphertext buffer gets the `u` rows that fit.
    let m = [0x21u8; 32];
    let r = [0x12u8; 32];
    let mut ct = vec![0u8; params.ct_bytes];
    encrypt_impl(&params, &ek, &m, &r, &mut ct).unwrap();
    let row = 32 * 10;
    let mut short_ct = vec![0x77u8; row + 5];
    assert!(encrypt_impl(&params, &ek, &m, &r, &mut short_ct).is_err());
    assert_eq!(&short_ct[..row], &ct[..row]);
    assert!(short_ct[row..].iter().all(|&b| b == 0x77));
}
