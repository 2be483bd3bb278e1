use krabipqc::encoding::{
    bit_pack, bit_unpack, bitlen, decode_sk_secrets, pk_encode, pk_t1_row, simple_bit_pack,
    simple_bit_unpack, sk_decode, sk_encode, EncodeError, SkSecretReader,
};
use krabipqc::params::{
    from_signed, ml_dsa_44_params, ml_dsa_65_params, ml_dsa_87_params, Params, D, N, Q,
};
use krabipqc::poly::Poly;
use krabipqc::polyvec::PolyVec;

#[test]
fn bitlen_basic() {
    assert_eq!(bitlen(0), 0);
    assert_eq!(bitlen(1), 1);
    assert_eq!(bitlen(2), 2);
    assert_eq!(bitlen(3), 2);
    assert_eq!(bitlen(255), 8);
    assert_eq!(bitlen(256), 9);
}

#[test]
fn simple_bit_pack_unpack_roundtrip() {
    let w1_bits = ml_dsa_44_params().w1_bits;
    let mut p = Poly::<u32>::zero();
    let max = (1u32 << w1_bits) - 1;
    for j in 0..N {
        p.coeffs[j] = (j as u32) & max;
    }
    let mut buf = vec![0u8; 32 * w1_bits];
    simple_bit_pack(&p, w1_bits, &mut buf).unwrap();
    let q = simple_bit_unpack(&buf, w1_bits).unwrap();
    assert_eq!(q, p);
}

#[test]
fn bit_pack_unpack_eta() {
    let eta = ml_dsa_44_params().eta.value();
    let c_bits = bitlen(2 * eta);
    let mut p = Poly::<u32>::zero();
    for j in 0..N {
        let s = (j as i32 % (2 * eta as i32 + 1)) - eta as i32;
        p.coeffs[j] = from_signed(s, Q);
    }
    let mut buf = vec![0u8; 32 * c_bits];
    bit_pack(&p, eta, c_bits, &mut buf).unwrap();
    let q = bit_unpack(&buf, eta, c_bits).unwrap();
    assert_eq!(q, p);
}

#[test]
fn bit_pack_unpack_gamma1() {
    let params = ml_dsa_44_params();
    let a = params.gamma1 - 1;
    let b = params.gamma1;
    let c_bits = 1 + params.gamma1_bits;
    let mut p = Poly::<u32>::zero();
    let span = a + b + 1;
    let mut state: u64 = 0xa5a5a5a5a5a5a5a5;
    for j in 0..N {
        state = state
            .wrapping_mul(6364136223846793005)
            .wrapping_add(1442695040888963407);
        let r = (state as u32) % span;
        let s = r as i32 - a as i32;
        p.coeffs[j] = from_signed(s, Q);
    }
    let mut buf = vec![0u8; 32 * c_bits];
    bit_pack(&p, b, c_bits, &mut buf).unwrap();
    let q = bit_unpack(&buf, b, c_bits).unwrap();
    assert_eq!(q, p);
}

fn pk_t1_row_roundtrip<const KK: usize, const LL: usize>(p: &Params<KK, LL>) {
    let rho = [7u8; 32];
    let mut t1 = PolyVec::<u32, KK>::zero();
    for i in 0..KK {
        for j in 0..N {
            t1.v[i].coeffs[j] = (i as u32 * 31 + j as u32) & 0x3FF;
        }
    }
    let mut pk = vec![0u8; p.pk_bytes];
    pk_encode(&rho, &t1, &mut pk).unwrap();
    assert_eq!(&pk[..32], &rho);
    for i in 0..KK {
        assert_eq!(pk_t1_row(&pk, i).unwrap(), t1.v[i]);
    }
}

fn sk_roundtrip<const KK: usize, const LL: usize>(p: &Params<KK, LL>) {
    let rho = [1u8; 32];
    let big_k = [2u8; 32];
    let tr = [3u8; 64];
    let mut s1 = PolyVec::<u32, LL>::zero();
    let mut s2 = PolyVec::<u32, KK>::zero();
    let mut t0 = PolyVec::<u32, KK>::zero();
    let eta = p.eta.value() as i32;
    for i in 0..LL {
        for j in 0..N {
            let s = ((i + j) as i32 % (2 * eta + 1)) - eta;
            s1.v[i].coeffs[j] = from_signed(s, Q);
        }
    }
    for i in 0..KK {
        for j in 0..N {
            let s = ((i + j + 5) as i32 % (2 * eta + 1)) - eta;
            s2.v[i].coeffs[j] = from_signed(s, Q);
            let t = (((j as i32) % (1 << D)) - (1 << (D - 1))) + 1;
            let t = t.clamp(-(1 << (D - 1)) + 1, 1 << (D - 1));
            t0.v[i].coeffs[j] = from_signed(t, Q);
        }
    }
    let mut sk = vec![0u8; p.sk_bytes];
    sk_encode(p, &rho, &big_k, &tr, &s1, &s2, &t0, &mut sk).unwrap();
    let (rho2, k2, tr2, s1_2, s2_2, t0_2) = sk_decode(p, &sk).unwrap();
    assert_eq!(rho2, rho);
    assert_eq!(k2, big_k);
    assert_eq!(tr2, tr);
    assert_eq!(s1_2, s1);
    assert_eq!(s2_2, s2);
    assert_eq!(t0_2, t0);
}

#[test]
fn pk_roundtrip_44() {
    pk_t1_row_roundtrip(&ml_dsa_44_params());
}

#[test]
fn pk_roundtrip_65() {
    pk_t1_row_roundtrip(&ml_dsa_65_params());
}

#[test]
fn pk_roundtrip_87() {
    pk_t1_row_roundtrip(&ml_dsa_87_params());
}

#[test]
fn sk_roundtrip_44() {
    sk_roundtrip(&ml_dsa_44_params());
}

#[test]
fn sk_roundtrip_65() {
    sk_roundtrip(&ml_dsa_65_params());
}

#[test]
fn sk_roundtrip_87() {
    sk_roundtrip(&ml_dsa_87_params());
}

fn reader_matches_decode<const KK: usize, const LL: usize>(p: &Params<KK, LL>) {
    let mut sk = vec![0u8; p.sk_bytes];
    let mut state: u64 = 0x2545_f491_4f6c_dd1d;
    for b in sk.iter_mut() {
        state = state.wrapping_mul(6364136223846793005).wrapping_add(1442695040888963407);
        *b = (state >> 33) as u8;
    }
    let mut s1 = PolyVec::<u32, LL>::zero();
    let mut s2 = PolyVec::<u32, KK>::zero();
    let mut t0 = PolyVec::<u32, KK>::zero();
    decode_sk_secrets(p, &sk, &mut s1, &mut s2, &mut t0).unwrap();
    let r = SkSecretReader::new(p, &sk).unwrap();
    for i in 0..LL {
        assert_eq!(r.s1_row(i).unwrap(), s1.v[i]);
    }
    for i in 0..KK {
        assert_eq!(r.s2_row(i).unwrap(), s2.v[i]);
        assert_eq!(r.t0_row(i).unwrap(), t0.v[i]);
    }
    assert_eq!(r.s1_row(LL), Err(EncodeError::BufferTooSmall));
    assert_eq!(r.s2_row(KK), Err(EncodeError::BufferTooSmall));
    assert_eq!(r.t0_row(KK), Err(EncodeError::BufferTooSmall));
    assert!(SkSecretReader::new(p, &sk[..p.sk_bytes - 1]).is_err());
    assert!(SkSecretReader::new(p, &sk[..100]).is_err());
}

#[test]
fn sk_reader_matches_decode_44() {
    reader_matches_decode(&ml_dsa_44_params());
}

#[test]
fn sk_reader_matches_decode_87() {
    reader_matches_decode(&ml_dsa_87_params());
}

#[test]
fn simple_bit_pack_short_buf_keeps_encoded_prefix() {
    let mut p = Poly::<u32>::zero();
    for j in 0..N {
        p.coeffs[j] = (j as u32 * 37 + 5) & 0x3FF;
    }
    let mut full = vec![0u8; 32 * 10];
    simple_bit_pack(&p, 10, &mut full).unwrap();
    let mut short = vec![0x55u8; 77];
    assert!(simple_bit_pack(&p, 10, &mut short).is_err());
    assert_eq!(&short[..], &full[..77]);
}

#[test]
fn pk_encode_short_buf_keeps_whole_rows() {
    let rho = [9u8; 32];
    let mut t1 = PolyVec::<u32, 4>::zero();
    for i in 0..4 {
        for j in 0..N {
            t1.v[i].coeffs[j] = (i as u32 * 101 + j as u32 * 3) & 0x3FF;
        }
    }
    let mut full = vec![0u8; 32 + 320 * 4];
    pk_encode(&rho, &t1, &mut full).unwrap();
    // Room for the seed, two rows and part of a third.
    let mut short = vec![0xEEu8; 32 + 320 * 2 + 100];
    assert!(pk_encode(&rho, &t1, &mut short).is_err());
    assert_eq!(&short[..32 + 640], &full[..32 + 640]);
    assert!(short[32 + 640..].iter().all(|&b| b == 0xEE));
    let mut tiny = vec![0x11u8; 20];
    assert!(pk_encode(&rho, &t1, &mut tiny).is_err());
    assert!(tiny.iter().all(|&b| b == 0x11));
}

#[test]
fn simple_bit_pack_24_bits_roundtrip() {
    let mut p = Poly::<u32>::zero();
    for j in 0..N {
        p.coeffs[j] = ((j as u32) * 65_537 + 12_345) & 0xFF_FFFF;
    }
    p.coeffs[7] = 0xFF_FFFF;
    let mut buf = vec![0u8; 32 * 24];
    simple_bit_pack(&p, 24, &mut buf).unwrap();
    assert_eq!(simple_bit_unpack(&buf, 24).unwrap(), p);
    assert_eq!(simple_bit_unpack(&buf[..32 * 24 - 1], 24), Err(EncodeError::BufferTooSmall));
}

#[test]
fn sk_encode_short_buf_keeps_header_and_tail() {
    let p = ml_dsa_44_params();
    let rho = [1u8; 32];
    let big_k = [2u8; 32];
    let tr = [3u8; 64];
    let s1 = PolyVec::<u32, 4>::zero();
    let s2 = PolyVec::<u32, 4>::zero();
    let t0 = PolyVec::<u32, 4>::zero();
    let mut short = vec![0xABu8; 200];
    assert_eq!(
        sk_encode(&p, &rho, &big_k, &tr, &s1, &s2, &t0, &mut short),
        Err(EncodeError::BufferTooSmall)
    );
    assert_eq!(&short[..32], &rho);
    assert_eq!(&short[32..64], &big_k);
    assert_eq!(&short[64..128], &tr[..]);
    let mut tiny = vec![0xCDu8; 100];
    assert!(sk_encode(&p, &rho, &big_k, &tr, &s1, &s2, &t0, &mut tiny).is_err());
    assert!(tiny.iter().all(|&b| b == 0xCD));
    let mut long = vec![0xEFu8; p.sk_bytes + 7];
    sk_encode(&p, &rho, &big_k, &tr, &s1, &s2, &t0, &mut long).unwrap();
    assert!(long[p.sk_bytes..].iter().all(|&b| b == 0xEF));
}
