//! Parameter-set marker types. Each names one of the six parameter sets
//! at the type level; the trait impls that give them behaviour for the
//! RustCrypto `kem` / `signature` traits are outside this library.

use vstd::prelude::*;

verus! {

/// Implemented only by the parameter-set markers of this crate.
pub trait Sealed {}

/// ML-KEM-512 marker.
#[derive(Copy, Clone, Debug, Default, PartialEq, Eq, PartialOrd, Ord)]
pub struct MlKem512;

/// ML-KEM-768 marker.
#[derive(Copy, Clone, Debug, Default, PartialEq, Eq, PartialOrd, Ord)]
pub struct MlKem768;

/// ML-KEM-1024 marker.
#[derive(Copy, Clone, Debug, Default, PartialEq, Eq, PartialOrd, Ord)]
pub struct MlKem1024;

/// ML-DSA-44 marker.
#[derive(Copy, Clone, Debug, Default, PartialEq, Eq, PartialOrd, Ord)]
pub struct MlDsa44;

/// ML-DSA-65 marker.
#[derive(Copy, Clone, Debug, Default, PartialEq, Eq, PartialOrd, Ord)]
pub struct MlDsa65;

/// ML-DSA-87 marker.
#[derive(Copy, Clone, Debug, Default, PartialEq, Eq, PartialOrd, Ord)]
pub struct MlDsa87;

impl Sealed for MlKem512 {}

impl Sealed for MlKem768 {}

impl Sealed for MlKem1024 {}

impl Sealed for MlDsa44 {}

impl Sealed for MlDsa65 {}

impl Sealed for MlDsa87 {}

} // verus!
