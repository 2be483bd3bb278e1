//! ML-KEM (FIPS 203): parameters, encoding, NTT, sampling, K-PKE and
//! the Fujisaki-Okamoto KEM built on it, together with the algebra of
//! the transform domain and the proof that decapsulation recovers what
//! encapsulation produced whenever the decryption noise is below `q/4`.

pub mod params;
pub mod encoding;
pub mod sampling;
pub mod ntt;
pub mod pke;
pub mod kem;
pub mod ntt_inverse;
pub mod algebra;
pub mod correctness;
pub mod fermat;
pub mod ntt_mul;
