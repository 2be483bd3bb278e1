use krabipqc::params::{ml_dsa_44_params, to_signed, Eta, N, Q};
use krabipqc::sampling::{
    bit_unpack_signed, coeff_from_half_byte, coeff_from_three_bytes, expand_a, expand_mask,
    expand_s, rej_bounded_poly, rej_ntt_poly, sample_in_ball,
};

const K: usize = 4;
const L: usize = 4;

#[test]
fn coeff_from_three_bytes_basic() {
    assert_eq!(coeff_from_three_bytes(0, 0, 0), Some(0));
    assert_eq!(coeff_from_three_bytes(0x00, 0xE0, 0x7F), Some(Q - 1));
    assert_eq!(coeff_from_three_bytes(0, 0, 0x80), Some(0));
    assert_eq!(coeff_from_three_bytes(0xFF, 0xFF, 0x7F), None);
    assert_eq!(coeff_from_three_bytes(0x01, 0xE0, 0x7F), None);
}

#[test]
fn coeff_from_half_byte_eta2() {
    assert_eq!(coeff_from_half_byte(0, Eta::Eta2), Some(2));
    assert_eq!(coeff_from_half_byte(1, Eta::Eta2), Some(1));
    assert_eq!(coeff_from_half_byte(2, Eta::Eta2), Some(0));
    assert_eq!(coeff_from_half_byte(3, Eta::Eta2), Some(-1));
    assert_eq!(coeff_from_half_byte(4, Eta::Eta2), Some(-2));
    assert_eq!(coeff_from_half_byte(5, Eta::Eta2), Some(2));
    assert_eq!(coeff_from_half_byte(14, Eta::Eta2), Some(-2));
    assert_eq!(coeff_from_half_byte(15, Eta::Eta2), None);
}

#[test]
fn coeff_from_half_byte_eta4() {
    assert_eq!(coeff_from_half_byte(0, Eta::Eta4), Some(4));
    assert_eq!(coeff_from_half_byte(4, Eta::Eta4), Some(0));
    assert_eq!(coeff_from_half_byte(8, Eta::Eta4), Some(-4));
    assert_eq!(coeff_from_half_byte(9, Eta::Eta4), None);
    assert_eq!(coeff_from_half_byte(15, Eta::Eta4), None);
}

#[test]
fn rej_ntt_poly_smoke() {
    let rho = [0u8; 32];
    let p = rej_ntt_poly(&rho, 0, 0);
    for &c in &p.coeffs {
        assert!(c < Q);
    }
}

#[test]
fn rej_bounded_poly_smoke_eta2() {
    let eta = ml_dsa_44_params().eta;
    let rho_prime = [1u8; 64];
    let p = rej_bounded_poly(&rho_prime, 0, eta);
    let bound = eta.value();
    for &c in &p.coeffs {
        let s = to_signed(c, Q);
        assert!(s.unsigned_abs() <= bound, "out of bounds: {}", s);
    }
}

#[test]
fn sample_in_ball_has_tau_nonzero_and_norm_one() {
    let tau = ml_dsa_44_params().tau;
    let rho = [9u8; 32];
    let c = sample_in_ball(&rho, tau);
    let mut nonzero = 0usize;
    for &v in &c.coeffs {
        let s = to_signed(v, Q);
        if s != 0 {
            nonzero += 1;
            assert!(s == 1 || s == -1);
        }
    }
    assert_eq!(nonzero, tau);
}

#[test]
fn sampling_expand_a_smoke() {
    let rho = [0u8; 32];
    let a = expand_a::<K, L>(&rho);
    for row in &a.rows {
        for poly in &row.v {
            for &c in &poly.coeffs {
                assert!(c < Q);
            }
        }
    }
}

#[test]
fn expand_s_smoke() {
    let eta = ml_dsa_44_params().eta;
    let rho_prime = [2u8; 64];
    let (s1, s2) = expand_s::<K, L>(&rho_prime, eta);
    let bound = eta.value();
    for p in s1.v.iter().chain(s2.v.iter()) {
        for &c in &p.coeffs {
            let s = to_signed(c, Q);
            assert!(s.unsigned_abs() <= bound);
        }
    }
}

#[test]
fn expand_mask_bounded() {
    let params = ml_dsa_44_params();
    let rho_pp = [3u8; 64];
    let y = expand_mask::<L>(&rho_pp, 0, params.gamma1, params.gamma1_bits).unwrap();
    for p in &y.v {
        for &c in &p.coeffs {
            let s = to_signed(c, Q);
            assert!(s.unsigned_abs() <= params.gamma1);
        }
    }
}

#[test]
fn expand_a_entries_differ_by_position() {
    let rho = [5u8; 32];
    let a = expand_a::<2, 2>(&rho);
    assert_eq!(a.rows[0].v[1], rej_ntt_poly(&rho, 1, 0));
    assert_eq!(a.rows[1].v[0], rej_ntt_poly(&rho, 0, 1));
    assert_ne!(a.rows[0].v[1], a.rows[1].v[0]);
}

#[test]
fn bit_unpack_signed_zero_bytes() {
    // All-zero bytes unpack to b - 0 = b for every coefficient.
    let bytes = [0u8; 32 * 18];
    let p = bit_unpack_signed(&bytes, 131072, 18).unwrap();
    for j in 0..N {
        assert_eq!(p.coeffs[j], 131072);
    }
    assert!(bit_unpack_signed(&bytes[..32 * 18 - 1], 131072, 18).is_err());
}

#[test]
fn rej_bounded_poly_depends_on_nonce() {
    let rho_prime = [4u8; 64];
    let a = rej_bounded_poly(&rho_prime, 0, Eta::Eta4);
    let b = rej_bounded_poly(&rho_prime, 1, Eta::Eta4);
    assert_ne!(a, b);
}
