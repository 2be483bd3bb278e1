use krabipqc::params::N;
use krabipqc::poly::Poly;
use krabipqc::polyvec::PolyVec;

const Q: u32 = 17;

#[test]
fn add_sub_roundtrip() {
    let mut a = Poly::<u32>::zero();
    let mut b = Poly::<u32>::zero();
    for i in 0..N {
        a.coeffs[i] = (i as u32 * 5) % Q;
        b.coeffs[i] = (i as u32 * 3 + 1) % Q;
    }
    let s = a.add(&b, Q);
    let r = s.sub(&b, Q);
    assert_eq!(r, a);
}

#[test]
fn schoolbook_constant_mul() {
    let mut a = Poly::<u32>::zero();
    a.coeffs[0] = 2;
    a.coeffs[1] = 3;
    let mut b = Poly::<u32>::zero();
    b.coeffs[0] = 5;
    let p = a.schoolbook_mul(&b, Q);
    assert_eq!(p.coeffs[0], 10);
    assert_eq!(p.coeffs[1], 15);
    for i in 2..N {
        assert_eq!(p.coeffs[i], 0);
    }
}

#[test]
fn schoolbook_anticyclic() {
    let mut a = Poly::<u32>::zero();
    a.coeffs[N - 1] = 1;
    let mut b = Poly::<u32>::zero();
    b.coeffs[1] = 1;
    let p = a.schoolbook_mul(&b, Q);
    assert_eq!(p.coeffs[0], Q - 1);
    for i in 1..N {
        assert_eq!(p.coeffs[i], 0);
    }
}

#[test]
fn default_yields_zero() {
    let p: Poly<u32> = Poly::default();
    assert!(p.coeffs.iter().all(|&c| c == 0));
}

#[test]
fn elementwise_mul_pointwise() {
    let mut a = Poly::<u32>::zero();
    let mut b = Poly::<u32>::zero();
    for i in 0..N {
        a.coeffs[i] = (i as u32 + 1) % Q;
        b.coeffs[i] = 2;
    }
    let c = a.elementwise_mul(&b, Q);
    for i in 0..N {
        assert_eq!(c.coeffs[i], (a.coeffs[i] * 2) % Q);
    }
}

#[test]
fn vec_add_sub_roundtrip() {
    let mut a = PolyVec::<u32, 4>::zero();
    let mut b = PolyVec::<u32, 4>::zero();
    for i in 0..4 {
        for j in 0..N {
            a.v[i].coeffs[j] = ((i * 100 + j) as u32) % Q;
            b.v[i].coeffs[j] = ((j * 3 + i) as u32) % Q;
        }
    }
    let s = a.add(&b, Q);
    let r = s.sub(&b, Q);
    assert_eq!(r, a);
}

#[test]
fn add_wraps_modulo() {
    let mut a = Poly::<u32>::zero();
    let mut b = Poly::<u32>::zero();
    a.coeffs[0] = 16;
    b.coeffs[0] = 5;
    a.coeffs[1] = 3;
    b.coeffs[1] = 4;
    let s = a.add(&b, Q);
    assert_eq!(s.coeffs[0], 4);
    assert_eq!(s.coeffs[1], 7);
    let d = b.sub(&a, Q);
    assert_eq!(d.coeffs[0], 6);
    assert_eq!(d.coeffs[1], 1);
}
