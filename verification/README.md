# krabipqc

ML-DSA (FIPS 204) signature verification and ML-KEM (FIPS 203) key
encapsulation for small targets, written in Verus: every function of the
library carries a contract, and the contracts are proved.

## Layout

- `src/` — the verified library.
  - `field`, `ct`, `bits`, `poly`, `polyvec`: arithmetic modulo `q`
    (canonical and Montgomery form), branch-free selection, bit packing.
  - `ntt`, `ntt_inverse`, `rounding`, `sampling`, `encoding`, `internal`,
    `ml_dsa_{44,65,87}`: ML-DSA verification and its building blocks.
  - `mlkem/`: ML-KEM parameters, encodings, NTT, sampling, K-PKE, the KEM,
    the transform-domain algebra (`algebra`), Fermat's little theorem for
    `q = 3329` (`fermat`) and the decryption-correctness proof
    (`correctness`); `ml_kem_{512,768,1024}` are the per-set entry points.
  - `hashing`: SHA3 / SHAKE through the `sha3` crate, behind trusted
    wrappers whose results are named by uninterpreted functions.
- `tests/` — executable tests of the library.
- `app/` — unverified glue: randomness-driven key generation and
  encapsulation over `rand_core`, and `signature::Verifier` impls.

## Proved properties (selection)

- NTT round trips in both directions, for both moduli.
- Linearity of the transforms, bilinearity and the transposition law of
  the transform-domain inner product, equality of the fused accumulator
  with the product-by-product sum.
- K-PKE decryption returns `Decompress_1(m)` plus an explicit noise
  polynomial; ML-KEM decapsulation returns the encapsulated key whenever
  that noise stays within `q/4`.
- NTT multiplication is the product in `R_q`, for both schemes.
- Packing/unpacking round trips of all key and signature encodings and the
  compression error bound.
- `SampleInBall` places exactly `tau` nonzero coefficients whenever it
  finishes within its sampling budget of `2^32` candidates (the
  rejection samplers stop at that budget so that they provably
  terminate; no input reaches it in practice).

The library allocates nothing on the heap: scratch space is fixed-size
arrays on the stack.
