use krabipqc::field::{add_mod, mul_mod, sub_mod};
use krabipqc::params::{from_signed, ml_dsa_44_params, to_signed, Q};
use krabipqc::rounding::{decompose, high_bits, low_bits, use_hint};

#[test]
fn decompose_recombines() {
    let g = ml_dsa_44_params().gamma2;
    for &r in &[0u32, 1, g, 2 * g, Q / 2, Q - 1, Q - 2] {
        let (r1, r0) = decompose(r, g);
        let r0_signed = to_signed(r0, Q);
        let r1_2g = mul_mod(r1, 2 * g, Q);
        let recomb = add_mod(r1_2g, from_signed(r0_signed, Q), Q);
        assert_eq!(recomb, r);
        assert!(r1 < (Q - 1) / (2 * g));
        assert!(r0_signed.unsigned_abs() <= g);
    }
}

#[test]
fn high_low_bits_consistency() {
    let g = ml_dsa_44_params().gamma2;
    for r in (0..Q).step_by(101) {
        assert_eq!(high_bits(r, g), decompose(r, g).0);
        assert_eq!(low_bits(r, g), decompose(r, g).1);
    }
}

fn ref_to_signed(x: u32) -> i32 {
    let x = x % Q;
    if x > Q / 2 {
        x as i32 - Q as i32
    } else {
        x as i32
    }
}

fn ref_decompose(r: u32, gamma2: u32) -> (u32, u32) {
    let r_plus = r % Q;
    let two_g = 2 * gamma2;
    let r0_u = r_plus % two_g;
    let (r0_canon, r0_signed_neg) = if r0_u > gamma2 {
        (sub_mod(0, two_g - r0_u, Q), true)
    } else {
        (r0_u, false)
    };
    let diff = if r0_signed_neg {
        r_plus - r0_u + two_g
    } else {
        r_plus - r0_u
    };
    if diff == Q - 1 {
        (0, sub_mod(r0_canon, 1, Q))
    } else {
        (diff / two_g, r0_canon)
    }
}

fn ref_use_hint(h: u32, r: u32, gamma2: u32) -> u32 {
    let m = (Q - 1) / (2 * gamma2);
    let (r1, r0) = ref_decompose(r, gamma2);
    if h == 0 {
        return r1;
    }
    let r0s = ref_to_signed(r0);
    if r0s > 0 {
        (r1 + 1) % m
    } else {
        (r1 + m - 1) % m
    }
}

#[test]
fn decompose_matches_reference_dense() {
    for &g in &[((Q - 1) / 88), ((Q - 1) / 32)] {
        for r in (0..Q).step_by(503) {
            assert_eq!(decompose(r, g), ref_decompose(r, g), "r={} g={}", r, g);
        }
    }
}

#[test]
fn use_hint_matches_reference() {
    let g = (Q - 1) / 88;
    for r in (0..Q).step_by(1009) {
        for h in 0..2u32 {
            assert_eq!(use_hint(h, r, g), ref_use_hint(h, r, g), "h={} r={}", h, r);
        }
    }
}

#[test]
fn decompose_top_corner() {
    let g = (Q - 1) / 88;
    // r = q - 1 lies in the last interval: high bits wrap to 0 and the
    // low part is -1.
    let (r1, r0) = decompose(Q - 1, g);
    assert_eq!(r1, 0);
    assert_eq!(r0, Q - 1);
    assert_eq!(high_bits(2 * g, g), 1);
    assert_eq!(low_bits(2 * g + 5, g), 5);
}

#[test]
fn use_hint_moves_toward_low_sign() {
    let g = (Q - 1) / 88;
    // r = 2g + 5: high bits 1, low part +5; with the hint set it moves up.
    assert_eq!(use_hint(1, 2 * g + 5, g), 2);
    assert_eq!(use_hint(0, 2 * g + 5, g), 1);
    // r = 2g - 5: high bits 1, low part -5; with the hint set it moves down.
    assert_eq!(use_hint(1, 2 * g - 5, g), 0);
    // Wraparound at the top: high bits 43 move up to 0.
    assert_eq!(use_hint(1, 43 * 2 * g + 1, g), 0);
}
