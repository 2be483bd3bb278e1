use krabipqc::encoding::EncodeError;
use krabipqc::{MlDsa44, MlKem512, RandError, SignError};

#[test]
fn errors_convert_from_encode_error() {
    let s: SignError<u8> = EncodeError::BufferTooSmall.into();
    assert_eq!(s, SignError::Encode(EncodeError::BufferTooSmall));
    let r: RandError<u8> = EncodeError::NotCanonical.into();
    assert_eq!(r, RandError::Encode(EncodeError::NotCanonical));
}

#[test]
fn markers_are_unit_values() {
    assert_eq!(MlKem512::default(), MlKem512);
    assert_eq!(MlDsa44::default(), MlDsa44);
}

#[test]
fn encode_error_messages() {
    assert_eq!(EncodeError::BufferTooSmall.message(), "buffer too small");
    assert_eq!(EncodeError::NotCanonical.message(), "non-canonical encoding");
}
