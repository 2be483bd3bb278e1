use krabipqc::hashing::{sha3_256, sha3_512, shake128, shake256, Shake128Stream, Shake256Stream};

#[test]
fn shake256_empty_short() {
    let mut out = [0u8; 16];
    shake256(&[b""], &mut out);
    assert_eq!(
        out,
        [
            0x46, 0xb9, 0xdd, 0x2b, 0x0b, 0xa8, 0x8d, 0x13, 0x23, 0x3b, 0x3f, 0xeb, 0x74, 0x3e,
            0xeb, 0x24
        ]
    );
}

#[test]
fn shake128_empty_short() {
    let mut out = [0u8; 16];
    shake128(&[b""], &mut out);
    assert_eq!(
        out,
        [
            0x7f, 0x9c, 0x2b, 0xa4, 0xe8, 0x8f, 0x82, 0x7d, 0x61, 0x60, 0x45, 0x50, 0x76, 0x05,
            0x85, 0x3e
        ]
    );
}

#[test]
fn streaming_matches_oneshot() {
    let mut a = [0u8; 64];
    shake256(&[b"hello", b" ", b"world"], &mut a);
    let mut b = [0u8; 64];
    let mut s = Shake256Stream::new(&[b"hello world"]);
    s.squeeze(&mut b);
    assert_eq!(a, b);
}

#[test]
fn squeeze_in_parts_matches_whole() {
    let mut whole = [0u8; 200];
    let mut s = Shake128Stream::new(&[b"abc"]);
    s.squeeze(&mut whole);
    let mut s2 = Shake128Stream::new(&[b"a", b"bc"]);
    let mut p1 = [0u8; 7];
    let mut p2 = [0u8; 193];
    s2.squeeze(&mut p1);
    s2.squeeze(&mut p2);
    assert_eq!(&whole[..7], &p1);
    assert_eq!(&whole[7..], &p2);
}

#[test]
fn sha3_256_empty() {
    let d = sha3_256(&[b""]);
    assert_eq!(
        d,
        [
            0xa7, 0xff, 0xc6, 0xf8, 0xbf, 0x1e, 0xd7, 0x66, 0x51, 0xc1, 0x47, 0x56, 0xa0, 0x61,
            0xd6, 0x62, 0xf5, 0x80, 0xff, 0x4d, 0xe4, 0x3b, 0x49, 0xfa, 0x82, 0xd8, 0x0a, 0x4b,
            0x80, 0xf8, 0x43, 0x4a
        ]
    );
}

#[test]
fn sha3_512_pieces_concatenate() {
    let a = sha3_512(&[b"ab", b"c"]);
    let b = sha3_512(&[b"abc"]);
    assert_eq!(a, b);
    assert_eq!(&a[..4], &[0xb7, 0x51, 0x85, 0x0b]);
}
