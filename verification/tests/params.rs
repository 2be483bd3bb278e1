use krabipqc::mlkem::params::{ml_kem_1024_params, ml_kem_512_params, ml_kem_768_params};
use krabipqc::params::{
    from_signed, ml_dsa_44_params, ml_dsa_65_params, ml_dsa_87_params, to_signed,
    MAX_W1_PACKED_BYTES, Q,
};

#[test]
fn sizes_44() {
    let p = ml_dsa_44_params();
    assert_eq!(p.pk_bytes, 1312);
    assert_eq!(p.sk_bytes, 2560);
    assert_eq!(p.sig_bytes, 2420);
    assert_eq!(p.ctilde_bytes, 32);
}

#[test]
fn sizes_65() {
    let p = ml_dsa_65_params();
    assert_eq!(p.pk_bytes, 1952);
    assert_eq!(p.sk_bytes, 4032);
    assert_eq!(p.sig_bytes, 3309);
    assert_eq!(p.ctilde_bytes, 48);
}

#[test]
fn sizes_87() {
    let p = ml_dsa_87_params();
    assert_eq!(p.pk_bytes, 2592);
    assert_eq!(p.sk_bytes, 4896);
    assert_eq!(p.sig_bytes, 4627);
    assert_eq!(p.ctilde_bytes, 64);
}

#[test]
fn w1_packed_bound() {
    for &(k, w1) in &[(4, 6), (6, 4), (8, 4)] {
        assert!(k * 32 * w1 <= MAX_W1_PACKED_BYTES);
    }
}

#[test]
fn signed_roundtrip() {
    for x in [0, 1, 100, Q / 2 - 1, Q / 2, Q / 2 + 1, Q - 1] {
        let s = to_signed(x, Q);
        let r = from_signed(s, Q);
        assert_eq!(r, x);
    }
}

#[test]
fn sizes_512() {
    let p = ml_kem_512_params();
    assert_eq!(p.ek_bytes, 800);
    assert_eq!(p.dk_bytes, 1632);
    assert_eq!(p.ct_bytes, 768);
}

#[test]
fn sizes_768() {
    let p = ml_kem_768_params();
    assert_eq!(p.ek_bytes, 1184);
    assert_eq!(p.dk_bytes, 2400);
    assert_eq!(p.ct_bytes, 1088);
}

#[test]
fn sizes_1024() {
    let p = ml_kem_1024_params();
    assert_eq!(p.ek_bytes, 1568);
    assert_eq!(p.dk_bytes, 3168);
    assert_eq!(p.ct_bytes, 1568);
}

#[test]
fn to_signed_centers_values() {
    assert_eq!(to_signed(0, Q), 0);
    assert_eq!(to_signed(Q - 1, Q), -1);
    assert_eq!(to_signed(Q / 2, Q), (Q / 2) as i32);
    assert_eq!(to_signed(Q / 2 + 1, Q), -((Q / 2) as i32));
    assert_eq!(from_signed(-1, Q), Q - 1);
}
