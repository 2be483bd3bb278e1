//! ML-KEM scheme parameters and `Z_q` modulus (FIPS 203 §8, Table 2).

use vstd::prelude::*;

verus! {

/// Modulus q = 2^8 * 13 + 1 = 3329.
pub const Q: u32 = 3329;

/// `-Q^-1 mod 2^32`, used by the Montgomery REDC.
pub const Q_N_PRIME: u32 = 2_488_732_927;

/// `R^2 mod Q` = `2^64 mod Q`, used by canonical-to-Montgomery conversion.
pub const Q_R2_MOD_Q: u32 = 2988;

/// Polynomial degree (same n as ML-DSA).
pub const N: usize = 256;

/// Primitive 256-th root of unity mod 3329 used by the NTT.
pub const ZETA: u32 = 17;

/// CBD parameter eta: FIPS 203 only defines 2 and 3.
#[derive(Clone, Copy, Debug, PartialEq, Eq)]
pub enum Eta {
    /// eta = 2: ML-KEM-768/1024 (eta1, eta2) and ML-KEM-512 (eta2).
    Two,
    /// eta = 3: ML-KEM-512 (eta1).
    Three,
}

impl Eta {
    pub open spec fn spec_value(self) -> u32 {
        match self {
            Eta::Two => 2,
            Eta::Three => 3,
        }
    }

    /// Numeric value (2 or 3).
    #[verifier::when_used_as_spec(spec_value)]
    pub fn value(self) -> (v: u32)
        ensures
            v == self.spec_value(),
    {
        match self {
            Eta::Two => 2,
            Eta::Three => 3,
        }
    }

    pub open spec fn spec_buf_len(self) -> usize {
        (64 * self.spec_value()) as usize
    }

    /// PRF output / CBD input length in bytes (64 * eta).
    #[verifier::when_used_as_spec(spec_buf_len)]
    pub fn buf_len(self) -> (n: usize)
        ensures
            n == self.spec_buf_len(),
            n == 64 * self.spec_value(),
    {
        64 * self.value() as usize
    }
}

/// PRF output buffer size that fits both eta values.
pub const PRF_BUF_LEN: usize = 192;

/// Per-parameter-set constants. `K` is the module rank.
#[derive(Clone, Copy, Debug)]
pub struct Params<const K: usize> {
    pub eta1: Eta,
    pub eta2: Eta,
    pub du: usize,
    pub dv: usize,
    /// Encapsulation-key length.
    pub ek_bytes: usize,
    /// Decapsulation-key length.
    pub dk_bytes: usize,
    /// Ciphertext length.
    pub ct_bytes: usize,
}

/// Shared-secret length (always 32 bytes).
pub const SS_BYTES: usize = 32;

/// Encapsulation-key length: `32 + 384 k`.
pub open spec fn ek_bytes_spec(k: int) -> int {
    32 + 384 * k
}

/// Decapsulation-key length: `dk_PKE || ek || H(ek) || z`.
pub open spec fn dk_bytes_spec(k: int) -> int {
    384 * k + ek_bytes_spec(k) + 32 + 32
}

/// Ciphertext length: `32 (du k + dv)`.
pub open spec fn ct_bytes_spec(k: int, du: int, dv: int) -> int {
    32 * (du * k + dv)
}

pub fn ek_bytes(k: usize) -> (r: usize)
    requires
        k <= 8,
    ensures
        r == ek_bytes_spec(k as int),
{
    32 + 384 * k
}

pub fn dk_bytes(k: usize) -> (r: usize)
    requires
        k <= 8,
    ensures
        r == dk_bytes_spec(k as int),
{
    384 * k + ek_bytes(k) + 32 + 32
}

pub fn ct_bytes(k: usize, du: usize, dv: usize) -> (r: usize)
    requires
        k <= 8,
        du <= 12,
        dv <= 12,
    ensures
        r == ct_bytes_spec(k as int, du as int, dv as int),
{
    assert(du * k <= 96) by (nonlinear_arith)
        requires
            du <= 12,
            k <= 8,
    ;
    32 * (du * k + dv)
}

/// The well-formedness shared by the three ML-KEM parameter sets.
pub open spec fn kem_params_ok<const K: usize>(p: Params<K>) -> bool {
    &&& 2 <= K <= 4
    &&& (p.du == 10 || p.du == 11)
    &&& (p.dv == 4 || p.dv == 5)
    &&& p.ek_bytes == ek_bytes_spec(K as int)
    &&& p.dk_bytes == dk_bytes_spec(K as int)
    &&& p.ct_bytes == ct_bytes_spec(K as int, p.du as int, p.dv as int)
}

/// The ML-KEM-512 parameter set.
pub open spec fn ml_kem_512_spec() -> Params<2> {
    Params {
        eta1: Eta::Three,
        eta2: Eta::Two,
        du: 10,
        dv: 4,
        ek_bytes: 800,
        dk_bytes: 1632,
        ct_bytes: 768,
    }
}

/// ML-KEM-512 (k=2, eta1=3, eta2=2, du=10, dv=4).
pub fn ml_kem_512_params() -> (p: Params<2>)
    ensures
        p == ml_kem_512_spec(),
        kem_params_ok(p),
        p.eta1 == Eta::Three,
        p.eta2 == Eta::Two,
        p.du == 10,
        p.dv == 4,
{
    Params {
        eta1: Eta::Three,
        eta2: Eta::Two,
        du: 10,
        dv: 4,
        ek_bytes: 800,
        dk_bytes: 1632,
        ct_bytes: 768,
    }
}

/// The ML-KEM-768 parameter set.
pub open spec fn ml_kem_768_spec() -> Params<3> {
    Params {
        eta1: Eta::Two,
        eta2: Eta::Two,
        du: 10,
        dv: 4,
        ek_bytes: 1184,
        dk_bytes: 2400,
        ct_bytes: 1088,
    }
}

/// ML-KEM-768 (k=3, eta1=2, eta2=2, du=10, dv=4).
pub fn ml_kem_768_params() -> (p: Params<3>)
    ensures
        p == ml_kem_768_spec(),
        kem_params_ok(p),
        p.eta1 == Eta::Two,
        p.eta2 == Eta::Two,
        p.du == 10,
        p.dv == 4,
{
    Params {
        eta1: Eta::Two,
        eta2: Eta::Two,
        du: 10,
        dv: 4,
        ek_bytes: 1184,
        dk_bytes: 2400,
        ct_bytes: 1088,
    }
}

/// The ML-KEM-1024 parameter set.
pub open spec fn ml_kem_1024_spec() -> Params<4> {
    Params {
        eta1: Eta::Two,
        eta2: Eta::Two,
        du: 11,
        dv: 5,
        ek_bytes: 1568,
        dk_bytes: 3168,
        ct_bytes: 1568,
    }
}

/// ML-KEM-1024 (k=4, eta1=2, eta2=2, du=11, dv=5).
pub fn ml_kem_1024_params() -> (p: Params<4>)
    ensures
        p == ml_kem_1024_spec(),
        kem_params_ok(p),
        p.eta1 == Eta::Two,
        p.eta2 == Eta::Two,
        p.du == 11,
        p.dv == 5,
{
    Params {
        eta1: Eta::Two,
        eta2: Eta::Two,
        du: 11,
        dv: 5,
        ek_bytes: 1568,
        dk_bytes: 3168,
        ct_bytes: 1568,
    }
}

} // verus!
