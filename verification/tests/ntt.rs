use krabipqc::field::{exp_mod, inv_mod, mul_mod, to_mont};
use krabipqc::ntt::{bitrev8, compute_zetas, inv_ntt, mul_ntt, ntt, N_INV, ZETAS, ZETAS_MONT};
use krabipqc::params::{N, Q, Q_N_PRIME, Q_R2_MOD_Q, ZETA};
use krabipqc::poly::Poly;

fn lcg_poly(seed: u64) -> Poly<u32> {
    let mut a = Poly::<u32>::zero();
    let mut state = seed;
    for i in 0..N {
        state = state
            .wrapping_mul(6364136223846793005)
            .wrapping_add(1442695040888963407);
        a.coeffs[i] = (state as u32) % Q;
    }
    a
}

#[test]
fn bitrev8_known() {
    assert_eq!(bitrev8(0), 0);
    assert_eq!(bitrev8(1), 0b1000_0000);
    assert_eq!(bitrev8(2), 0b0100_0000);
    assert_eq!(bitrev8(0xFF), 0xFF);
    assert_eq!(bitrev8(0b1010_1010), 0b0101_0101);
}

#[test]
fn n_inv_is_correct() {
    assert_eq!(mul_mod(N_INV, N as u32, Q), 1);
}

#[test]
fn zeta_is_primitive_512th_root() {
    assert_eq!(exp_mod(ZETA, 256, Q), Q - 1);
    assert_eq!(exp_mod(ZETA, 512, Q), 1);
}

#[test]
fn ntt_zetas_known_values() {
    let z = compute_zetas();
    assert_eq!(z[0], 1);
    assert_eq!(z[1], exp_mod(ZETA, 128, Q));
    assert_eq!(z[1], 4808194);
}

#[test]
fn zetas_const_matches_computed() {
    let computed = compute_zetas();
    assert_eq!(ZETAS, computed);
}

#[test]
fn ntt_zetas_mont_matches_to_mont_zetas() {
    for (i, &z) in ZETAS.iter().enumerate() {
        assert_eq!(
            ZETAS_MONT[i],
            to_mont(z, Q, Q_N_PRIME, Q_R2_MOD_Q),
            "ZETAS_MONT[{i}] mismatch"
        );
    }
}

#[test]
fn ntt_ntt_invntt_roundtrip() {
    let mut p = Poly::<u32>::zero();
    for i in 0..N {
        p.coeffs[i] = ((i as u32) * 1234567 + 89) % Q;
    }
    let orig = p;
    ntt(&mut p);
    inv_ntt(&mut p);
    assert_eq!(p, orig);
}

#[test]
fn ntt_pointwise_matches_schoolbook() {
    let mut a = Poly::<u32>::zero();
    let mut b = Poly::<u32>::zero();
    a.coeffs[0] = 2;
    a.coeffs[1] = 3;
    a.coeffs[5] = 7;
    b.coeffs[0] = 5;
    b.coeffs[2] = 11;
    b.coeffs[10] = 13;
    let want = a.schoolbook_mul(&b, Q);
    let mut na = a;
    let mut nb = b;
    ntt(&mut na);
    ntt(&mut nb);
    let mut prod = mul_ntt(&na, &nb);
    inv_ntt(&mut prod);
    assert_eq!(prod, want);
}

#[test]
fn ntt_ntt_nct_ct_identical_output() {
    let mut a_nct = lcg_poly(0xabcd_0123_4567_89ef);
    let mut a_ct = a_nct;
    ntt(&mut a_nct);
    ntt(&mut a_ct);
    assert_eq!(a_nct, a_ct, "forward NTT Nct vs Ct mismatch");

    let mut b_nct = a_nct;
    let mut b_ct = a_ct;
    inv_ntt(&mut b_nct);
    inv_ntt(&mut b_ct);
    assert_eq!(b_nct, b_ct, "inverse NTT Nct vs Ct mismatch");
}

#[test]
fn ntt_mul_ntt_nct_ct_identical_output() {
    let mut a = Poly::<u32>::zero();
    let mut b = Poly::<u32>::zero();
    let mut state: u64 = 0x1357_2468_9bdf_ace0;
    for i in 0..N {
        state = state
            .wrapping_mul(6364136223846793005)
            .wrapping_add(1442695040888963407);
        a.coeffs[i] = (state as u32) % Q;
        state = state
            .wrapping_mul(6364136223846793005)
            .wrapping_add(1442695040888963407);
        b.coeffs[i] = (state as u32) % Q;
    }
    ntt(&mut a);
    ntt(&mut b);
    let nct_prod = mul_ntt(&a, &b);
    let ct_prod = mul_ntt(&a, &b);
    assert_eq!(nct_prod, ct_prod, "mul_ntt Nct vs Ct mismatch");
}

#[test]
fn ntt_pointwise_matches_schoolbook_random_dense() {
    let mut a = Poly::<u32>::zero();
    let mut b = Poly::<u32>::zero();
    let mut state: u64 = 0x1234_5678_9abc_def0;
    for i in 0..N {
        state = state
            .wrapping_mul(6364136223846793005)
            .wrapping_add(1442695040888963407);
        a.coeffs[i] = (state as u32) % Q;
        state = state
            .wrapping_mul(6364136223846793005)
            .wrapping_add(1442695040888963407);
        b.coeffs[i] = (state as u32) % Q;
    }
    let want = a.schoolbook_mul(&b, Q);
    let mut na = a;
    let mut nb = b;
    ntt(&mut na);
    ntt(&mut nb);
    let mut prod = mul_ntt(&na, &nb);
    inv_ntt(&mut prod);
    assert_eq!(prod, want);
}

#[test]
fn exp_mod_exact_values() {
    assert_eq!(exp_mod(2, 10, 1000), 24);
    assert_eq!(exp_mod(7, 0, 13), 1);
    assert_eq!(exp_mod(17, 1, Q), 17);
}

#[test]
fn ntt_undoes_inv_ntt_dsa() {
    let x = lcg_poly(0x7777);
    let mut p = x;
    inv_ntt(&mut p);
    ntt(&mut p);
    assert_eq!(p, x);
}

#[test]
fn inv_mod_inverts_nonzero_residues() {
    for x in [1u32, 2, 3, 1234, 3328, 5000] {
        let r = inv_mod(x, 3329, 2_488_732_927, 2988);
        assert_eq!((x as u64 * r as u64) % 3329, 1);
    }
    for x in [1u32, 2, 1_234_567, Q - 1] {
        let r = inv_mod(x, Q, Q_N_PRIME, Q_R2_MOD_Q);
        assert_eq!((x as u64 * r as u64) % Q as u64, 1);
    }
    assert_eq!(inv_mod(2, 3329, 2_488_732_927, 2988), 1665);
}
