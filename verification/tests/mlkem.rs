use krabipqc::encoding::EncodeError;
use krabipqc::field::{exp_mod, mul_mod, sub_mod, to_mont};
use krabipqc::mlkem::encoding::{
    byte_decode, byte_encode, compress_d, compress_poly, decompress_d, decompress_poly,
    ek_modulus_check,
};
use krabipqc::mlkem::ntt::{
    bitrev7, compute_gammas, compute_zetas, inv_ntt, mul_ntt, mul_ntt_acc, ntt, GAMMAS, GAMMAS_MONT, N_INV_128, ZETAS, ZETAS_MONT,
};
use krabipqc::mlkem::params::{Eta, N, Q, Q_N_PRIME, Q_R2_MOD_Q, ZETA};
use krabipqc::mlkem::sampling::{expand_a, sample_ntt, sample_poly_cbd, sample_se};
use krabipqc::params::to_signed;
use krabipqc::poly::Poly;

fn lcg_poly(seed: u64) -> Poly<u32> {
    let mut a = Poly::<u32>::zero();
    let mut state = seed;
    for i in 0..N {
        state = state
            .wrapping_mul(6364136223846793005)
            .wrapping_add(1442695040888963407);
        a.coeffs[i] = (state as u32) % Q;
    }
    a
}

#[test]
fn compress_decompress_d_bounds() {
    let mut state: u64 = 0xdead_cafe_beef_1234;
    for _ in 0..2000 {
        state = state
            .wrapping_mul(6364136223846793005)
            .wrapping_add(1442695040888963407);
        let x = (state as u32) % Q;
        for &d in &[1usize, 4, 5, 10, 11] {
            let y = compress_d(x, d);
            assert!(y < (1u32 << d), "compress_{}({}) = {} out of range", d, x, y);
            let xr = decompress_d(y, d);
            let bound = (Q + (1u32 << (d + 1)) - 1) >> (d + 1);
            let centered = to_signed(sub_mod(xr, x, Q), Q).unsigned_abs();
            assert!(centered <= bound, "d={}, x={}, y={}, xr={}", d, x, y, xr);
        }
    }
}

#[test]
fn byte_encode_decode_roundtrip_d12() {
    let mut p = Poly::<u32>::zero();
    for i in 0..N {
        p.coeffs[i] = (i as u32 * 13 + 7) % Q;
    }
    let mut buf = vec![0u8; 32 * 12];
    byte_encode(&p, 12, &mut buf).unwrap();
    let q = byte_decode(&buf, 12).unwrap();
    assert_eq!(q, p);
}

#[test]
fn byte_encode_decode_roundtrip_d10() {
    let mut p = Poly::<u32>::zero();
    let mask = (1u32 << 10) - 1;
    for i in 0..N {
        p.coeffs[i] = (i as u32 * 7) & mask;
    }
    let mut buf = vec![0u8; 32 * 10];
    byte_encode(&p, 10, &mut buf).unwrap();
    let q = byte_decode(&buf, 10).unwrap();
    assert_eq!(q, p);
}

#[test]
fn compress_then_byte_encode_roundtrip() {
    let mut p = Poly::<u32>::zero();
    for i in 0..N {
        p.coeffs[i] = (i as u32 * 19 + 3) % Q;
    }
    for &d in &[1usize, 4, 5, 10, 11] {
        let cp = compress_poly(&p, d);
        let mut buf = vec![0u8; 32 * d];
        byte_encode(&cp, d, &mut buf).unwrap();
        let dp = byte_decode(&buf, d).unwrap();
        assert_eq!(dp, cp, "byte enc/dec at d={}", d);
        let recovered = decompress_poly(&dp, d);
        let bound = (Q + (1u32 << (d + 1)) - 1) >> (d + 1);
        for (a, b) in p.coeffs.iter().zip(recovered.coeffs.iter()) {
            let diff = to_signed(sub_mod(*b, *a, Q), Q).unsigned_abs();
            assert!(diff <= bound, "d={}, diff={} > bound={}", d, diff, bound);
        }
    }
}

#[test]
fn byte_encode_short_buf_errors() {
    let p = Poly::<u32>::zero();
    let mut buf = vec![0u8; 32 * 12 - 1];
    assert_eq!(byte_encode(&p, 12, &mut buf), Err(EncodeError::BufferTooSmall));
}

#[test]
fn byte_decode_short_buf_errors() {
    let buf = vec![0u8; 32 * 12 - 1];
    assert_eq!(byte_decode(&buf, 12), Err(EncodeError::BufferTooSmall));
}

#[test]
fn compress_decompress_exact_values() {
    assert_eq!(compress_d(0, 1), 0);
    assert_eq!(compress_d(832, 1), 0);
    assert_eq!(compress_d(833, 1), 1);
    assert_eq!(compress_d(1665, 1), 1);
    assert_eq!(compress_d(2496, 1), 1);
    assert_eq!(compress_d(2497, 1), 0);
    assert_eq!(decompress_d(1, 1), 1665);
    assert_eq!(decompress_d(0, 4), 0);
    assert_eq!(decompress_d(1, 4), 208);
}

#[test]
fn ek_modulus_check_rejects_q() {
    let mut t = vec![0u8; 384 * 2];
    assert_eq!(ek_modulus_check::<2>(&t), Ok(()));
    // First coefficient 3329 = 0xD01: low byte 0x01, high nibble 0xD.
    t[0] = 0x01;
    t[1] = 0x0D;
    assert_eq!(ek_modulus_check::<2>(&t), Err(EncodeError::NotCanonical));
    assert_eq!(ek_modulus_check::<2>(&t[..767]), Err(EncodeError::BufferTooSmall));
}

#[test]
fn bitrev7_known() {
    assert_eq!(bitrev7(0), 0);
    assert_eq!(bitrev7(1), 64);
    assert_eq!(bitrev7(0x7F), 0x7F);
    assert_eq!(bitrev7(0b101_0101), 0b101_0101);
}

#[test]
fn n_inv_128_correct() {
    assert_eq!(mul_mod(N_INV_128, 128, Q), 1);
}

#[test]
fn zetas_known_values() {
    let z = compute_zetas();
    assert_eq!(z[0], 1);
    assert_eq!(z[1], 1729);
    assert_eq!(z, ZETAS);
}

#[test]
fn gammas_match_compute() {
    assert_eq!(compute_gammas(), GAMMAS);
    assert_eq!(GAMMAS[0], 17);
}

#[test]
fn zetas_mont_matches_to_mont_zetas() {
    for (i, &z) in ZETAS.iter().enumerate() {
        assert_eq!(ZETAS_MONT[i], to_mont(z, Q, Q_N_PRIME, Q_R2_MOD_Q), "ZETAS_MONT[{i}]");
    }
}

#[test]
fn gammas_mont_matches_to_mont_gammas() {
    for (i, &g) in GAMMAS.iter().enumerate() {
        assert_eq!(GAMMAS_MONT[i], to_mont(g, Q, Q_N_PRIME, Q_R2_MOD_Q), "GAMMAS_MONT[{i}]");
    }
}

#[test]
fn ntt_invntt_roundtrip() {
    let mut p = Poly::<u32>::zero();
    for i in 0..N {
        p.coeffs[i] = (i as u32 * 17 + 13) % Q;
    }
    let orig = p;
    ntt(&mut p);
    inv_ntt(&mut p);
    assert_eq!(p, orig);
}

#[test]
fn ntt_mul_matches_schoolbook() {
    let mut a = Poly::<u32>::zero();
    let mut b = Poly::<u32>::zero();
    a.coeffs[0] = 2;
    a.coeffs[1] = 3;
    a.coeffs[5] = 7;
    b.coeffs[0] = 5;
    b.coeffs[2] = 11;
    b.coeffs[10] = 13;
    let want = a.schoolbook_mul(&b, Q);
    let mut na = a;
    let mut nb = b;
    ntt(&mut na);
    ntt(&mut nb);
    let mut prod = mul_ntt(&na, &nb);
    inv_ntt(&mut prod);
    assert_eq!(prod, want);
}

#[test]
fn ntt_nct_ct_identical_output() {
    let mut a_nct = lcg_poly(0xabcd_0123_4567_89ef);
    let mut a_ct = a_nct;
    ntt(&mut a_nct);
    ntt(&mut a_ct);
    assert_eq!(a_nct, a_ct, "ml-kem forward NTT Nct vs Ct mismatch");

    let mut b_nct = a_nct;
    let mut b_ct = a_ct;
    inv_ntt(&mut b_nct);
    inv_ntt(&mut b_ct);
    assert_eq!(b_nct, b_ct, "ml-kem inverse NTT Nct vs Ct mismatch");
}

#[test]
fn mul_ntt_nct_ct_identical_output() {
    let mut a = Poly::<u32>::zero();
    let mut b = Poly::<u32>::zero();
    let mut state: u64 = 0x1357_2468_9bdf_ace0;
    for i in 0..N {
        state = state
            .wrapping_mul(6364136223846793005)
            .wrapping_add(1442695040888963407);
        a.coeffs[i] = (state as u32) % Q;
        state = state
            .wrapping_mul(6364136223846793005)
            .wrapping_add(1442695040888963407);
        b.coeffs[i] = (state as u32) % Q;
    }
    ntt(&mut a);
    ntt(&mut b);
    let nct_prod = mul_ntt(&a, &b);
    let ct_prod = mul_ntt(&a, &b);
    assert_eq!(nct_prod, ct_prod, "ml-kem mul_ntt Nct vs Ct mismatch");
}

#[test]
fn ntt_mul_matches_schoolbook_random_dense() {
    let mut a = Poly::<u32>::zero();
    let mut b = Poly::<u32>::zero();
    let mut state: u64 = 0x1234_5678_9abc_def0;
    for i in 0..N {
        state = state
            .wrapping_mul(6364136223846793005)
            .wrapping_add(1442695040888963407);
        a.coeffs[i] = (state as u32) % Q;
        state = state
            .wrapping_mul(6364136223846793005)
            .wrapping_add(1442695040888963407);
        b.coeffs[i] = (state as u32) % Q;
    }
    let want = a.schoolbook_mul(&b, Q);
    let mut na = a;
    let mut nb = b;
    ntt(&mut na);
    ntt(&mut nb);
    let mut prod = mul_ntt(&na, &nb);
    inv_ntt(&mut prod);
    assert_eq!(prod, want);
}

#[test]
fn zeta_is_primitive_256th_root() {
    assert_eq!(exp_mod(ZETA, 128, Q), Q - 1);
    assert_eq!(exp_mod(ZETA, 256, Q), 1);
}

#[test]
fn sample_ntt_in_range() {
    let rho = [0u8; 32];
    let p = sample_ntt(&rho, 0, 0);
    for &c in &p.coeffs {
        assert!(c < Q);
    }
}

#[test]
fn cbd_eta2_in_range() {
    let bytes = [0xACu8; 128];
    let p = sample_poly_cbd(&bytes, Eta::Two).unwrap();
    for &c in &p.coeffs {
        let s = to_signed(c, Q);
        assert!(s.unsigned_abs() <= 2);
    }
}

#[test]
fn cbd_eta3_in_range() {
    let bytes = [0x5Au8; 192];
    let p = sample_poly_cbd(&bytes, Eta::Three).unwrap();
    for &c in &p.coeffs {
        let s = to_signed(c, Q);
        assert!(s.unsigned_abs() <= 3);
    }
}

#[test]
fn cbd_short_buf_errors() {
    let bytes = [0u8; 127];
    assert_eq!(sample_poly_cbd(&bytes, Eta::Two), Err(EncodeError::BufferTooSmall));
}

#[test]
fn cbd_known_value() {
    // Byte 0x03 with eta = 2: the low nibble gives (1 + 1) - (0 + 0) = 2,
    // the high nibble (0 + 0) - (0 + 0) = 0.
    let bytes = [0x03u8; 128];
    let p = sample_poly_cbd(&bytes, Eta::Two).unwrap();
    assert_eq!(p.coeffs[0], 2);
    assert_eq!(p.coeffs[1], 0);
    assert_eq!(p.coeffs[2], 2);
}

#[test]
fn expand_a_smoke() {
    let rho = [1u8; 32];
    let a = expand_a::<3>(&rho);
    for row in &a.rows {
        for poly in &row.v {
            for &c in &poly.coeffs {
                assert!(c < Q);
            }
        }
    }
}

#[test]
fn sample_se_smoke() {
    let sigma = [2u8; 32];
    let (s, e) = sample_se::<2>(&sigma, Eta::Three).unwrap();
    for v in s.v.iter().chain(e.v.iter()) {
        for &c in &v.coeffs {
            assert!(to_signed(c, Q).unsigned_abs() <= 3);
        }
    }
}

#[test]
fn ntt_undoes_inv_ntt() {
    let x = lcg_poly(0x5151);
    let mut p = x;
    inv_ntt(&mut p);
    ntt(&mut p);
    assert_eq!(p, x);
}

#[test]
fn ntt_is_additive() {
    let a = lcg_poly(11);
    let b = lcg_poly(12);
    let mut s = a.add(&b, Q);
    let mut na = a;
    let mut nb = b;
    ntt(&mut s);
    ntt(&mut na);
    ntt(&mut nb);
    assert_eq!(s, na.add(&nb, Q));
}

#[test]
fn fused_accumulator_matches_sum_of_products() {
    let a = [lcg_poly(21), lcg_poly(22), lcg_poly(23)];
    let b = [lcg_poly(31), lcg_poly(32), lcg_poly(33)];
    let mut fused = Poly::<u32>::zero();
    mul_ntt_acc(&mut fused, &a, &b);
    let mut sum = Poly::<u32>::zero();
    for i in 0..3 {
        sum = sum.add(&mul_ntt(&a[i], &b[i]), Q);
    }
    assert_eq!(fused, sum);
}

#[test]
fn transpose_law_on_a_small_matrix() {
    // s^T (A^T y) == (A s)^T y in the transform domain
    let mat = [[lcg_poly(41), lcg_poly(42)], [lcg_poly(43), lcg_poly(44)]];
    let s = [lcg_poly(51), lcg_poly(52)];
    let y = [lcg_poly(61), lcg_poly(62)];
    let mut at_y = [Poly::<u32>::zero(); 2];
    for i in 0..2 {
        let col = [mat[0][i], mat[1][i]];
        mul_ntt_acc(&mut at_y[i], &col, &y);
    }
    let mut a_s = [Poly::<u32>::zero(); 2];
    for j in 0..2 {
        mul_ntt_acc(&mut a_s[j], &mat[j], &s);
    }
    let mut lhs = Poly::<u32>::zero();
    mul_ntt_acc(&mut lhs, &s, &at_y);
    let mut rhs = Poly::<u32>::zero();
    mul_ntt_acc(&mut rhs, &a_s, &y);
    assert_eq!(lhs, rhs);
}

#[test]
fn fermat_holds_for_the_modulus() {
    for r in [1u32, 2, 17, 1729, 3000, Q - 1] {
        assert_eq!(exp_mod(r, Q - 1, Q), 1);
        assert_eq!(mul_mod(r, exp_mod(r, Q - 2, Q), Q), 1);
    }
}

#[test]
fn byte_encode_short_buf_keeps_encoded_prefix() {
    let p = lcg_poly(0x5151);
    let mut full = vec![0u8; 32 * 12];
    byte_encode(&p, 12, &mut full).unwrap();
    let mut short = vec![0xAAu8; 100];
    assert_eq!(byte_encode(&p, 12, &mut short), Err(EncodeError::BufferTooSmall));
    assert_eq!(&short[..], &full[..100]);
}
