//! SHAKE-128/256 streams used by ML-DSA and ML-KEM, plus the SHA3-256 /
//! SHA3-512 one-shot hashes of ML-KEM (FIPS 203's `H` and `G`). The
//! permutation itself is the `sha3` crate's.
//!
//! The hasher and reader states of `sha3` are held in private fields of
//! the `external_body` structs below; what they stand for is given by
//! names: the bytes absorbed so far, and for a reader the number of
//! bytes already squeezed. The outputs are named by
//! [`shake128_byte`] / [`shake256_byte`] (byte `i` of the XOF output
//! on an input) and [`sha3_256_digest`] / [`sha3_512_digest`].

use sha3::digest::{ExtendableOutput, FixedOutput, Update, XofReader};
use vstd::prelude::*;

verus! {

/// Byte `i` of the SHAKE-128 output on `input`.
pub uninterp spec fn shake128_byte(input: Seq<u8>, i: nat) -> u8;

/// Byte `i` of the SHAKE-256 output on `input`.
pub uninterp spec fn shake256_byte(input: Seq<u8>, i: nat) -> u8;

/// SHA3-256 digest of `input`.
pub uninterp spec fn sha3_256_digest(input: Seq<u8>) -> Seq<u8>;

/// SHA3-512 digest of `input`.
pub uninterp spec fn sha3_512_digest(input: Seq<u8>) -> Seq<u8>;

/// Concatenation of byte strings, in order.
pub open spec fn concat_pieces(pieces: Seq<Seq<u8>>) -> Seq<u8>
    decreases pieces.len(),
{
    if pieces.len() == 0 {
        Seq::empty()
    } else {
        concat_pieces(pieces.drop_last()) + pieces.last()
    }
}

/// The byte strings behind a list of slices.
pub open spec fn pieces_of(inputs: Seq<&[u8]>) -> Seq<Seq<u8>> {
    Seq::new(inputs.len(), |i: int| inputs[i]@)
}

/// `n` bytes of SHAKE-128 output on `input`, from offset `from`.
pub open spec fn shake128_bytes(input: Seq<u8>, from: nat, n: nat) -> Seq<u8> {
    Seq::new(n, |k: int| shake128_byte(input, from + k as nat))
}

/// `n` bytes of SHAKE-256 output on `input`, from offset `from`.
pub open spec fn shake256_bytes(input: Seq<u8>, from: nat, n: nat) -> Seq<u8> {
    Seq::new(n, |k: int| shake256_byte(input, from + k as nat))
}

/// A SHAKE-128 hasher in its absorbing phase.
#[verifier::external_body]
pub struct Shake128Absorb {
    h: sha3::Shake128,
}

/// A SHAKE-256 hasher in its absorbing phase.
#[verifier::external_body]
pub struct Shake256Absorb {
    h: sha3::Shake256,
}

/// A SHA3-256 hasher.
#[verifier::external_body]
pub struct Sha3_256Absorb {
    h: sha3::Sha3_256,
}

/// A SHA3-512 hasher.
#[verifier::external_body]
pub struct Sha3_512Absorb {
    h: sha3::Sha3_512,
}

/// A simple streaming SHAKE-128 squeezer.
#[verifier::external_body]
pub struct Shake128Stream {
    reader: sha3::Shake128Reader,
}

/// A simple streaming SHAKE-256 squeezer.
#[verifier::external_body]
pub struct Shake256Stream {
    reader: sha3::Shake256Reader,
}

/// Bytes absorbed so far by a SHAKE-128 hasher.
pub uninterp spec fn shake128_absorbed(h: Shake128Absorb) -> Seq<u8>;

/// Bytes absorbed so far by a SHAKE-256 hasher.
pub uninterp spec fn shake256_absorbed(h: Shake256Absorb) -> Seq<u8>;

/// Bytes absorbed so far by a SHA3-256 hasher.
pub uninterp spec fn sha3_256_absorbed(h: Sha3_256Absorb) -> Seq<u8>;

/// Bytes absorbed so far by a SHA3-512 hasher.
pub uninterp spec fn sha3_512_absorbed(h: Sha3_512Absorb) -> Seq<u8>;

/// The input a SHAKE-128 stream squeezes the output of.
pub uninterp spec fn shake128_stream_input(s: Shake128Stream) -> Seq<u8>;

/// How many bytes a SHAKE-128 stream has already squeezed.
pub uninterp spec fn shake128_stream_pos(s: Shake128Stream) -> nat;

/// The input a SHAKE-256 stream squeezes the output of.
pub uninterp spec fn shake256_stream_input(s: Shake256Stream) -> Seq<u8>;

/// How many bytes a SHAKE-256 stream has already squeezed.
pub uninterp spec fn shake256_stream_pos(s: Shake256Stream) -> nat;

/// `Shake128::default()`: a hasher that has absorbed nothing.
#[verifier::external_body]
fn shake128_start() -> (h: Shake128Absorb)
    ensures
        shake128_absorbed(h) == Seq::<u8>::empty(),
{
    Shake128Absorb { h: sha3::Shake128::default() }
}

/// `Update::update` on a SHAKE-128 hasher appends `x` to the input.
#[verifier::external_body]
fn shake128_update(h: &mut Shake128Absorb, x: &[u8])
    ensures
        shake128_absorbed(*final(h)) == shake128_absorbed(*old(h)) + x@,
{
    h.h.update(x);
}

/// `ExtendableOutput::finalize_xof`: a reader at the start of the
/// SHAKE-128 output on the absorbed input.
#[verifier::external_body]
fn shake128_finish(h: Shake128Absorb) -> (s: Shake128Stream)
    ensures
        shake128_stream_input(s) == shake128_absorbed(h),
        shake128_stream_pos(s) == 0,
{
    Shake128Stream { reader: h.h.finalize_xof() }
}

/// `XofReader::read`: fills `out` with the next bytes of the output.
#[verifier::external_body]
fn shake128_read(s: &mut Shake128Stream, out: &mut [u8])
    ensures
        final(out).len() == old(out).len(),
        forall|k: int|
            0 <= k < old(out).len() ==> #[trigger] final(out)@[k] == shake128_byte(
                shake128_stream_input(*old(s)),
                shake128_stream_pos(*old(s)) + k as nat,
            ),
        shake128_stream_input(*final(s)) == shake128_stream_input(*old(s)),
        shake128_stream_pos(*final(s)) == shake128_stream_pos(*old(s)) + old(out).len(),
{
    s.reader.read(out);
}

/// `Shake256::default()`: a hasher that has absorbed nothing.
#[verifier::external_body]
fn shake256_start() -> (h: Shake256Absorb)
    ensures
        shake256_absorbed(h) == Seq::<u8>::empty(),
{
    Shake256Absorb { h: sha3::Shake256::default() }
}

/// `Update::update` on a SHAKE-256 hasher appends `x` to the input.
#[verifier::external_body]
fn shake256_update(h: &mut Shake256Absorb, x: &[u8])
    ensures
        shake256_absorbed(*final(h)) == shake256_absorbed(*old(h)) + x@,
{
    h.h.update(x);
}

/// `ExtendableOutput::finalize_xof`: a reader at the start of the
/// SHAKE-256 output on the absorbed input.
#[verifier::external_body]
fn shake256_finish(h: Shake256Absorb) -> (s: Shake256Stream)
    ensures
        shake256_stream_input(s) == shake256_absorbed(h),
        shake256_stream_pos(s) == 0,
{
    Shake256Stream { reader: h.h.finalize_xof() }
}

/// `XofReader::read`: fills `out` with the next bytes of the output.
#[verifier::external_body]
fn shake256_read(s: &mut Shake256Stream, out: &mut [u8])
    ensures
        final(out).len() == old(out).len(),
        forall|k: int|
            0 <= k < old(out).len() ==> #[trigger] final(out)@[k] == shake256_byte(
                shake256_stream_input(*old(s)),
                shake256_stream_pos(*old(s)) + k as nat,
            ),
        shake256_stream_input(*final(s)) == shake256_stream_input(*old(s)),
        shake256_stream_pos(*final(s)) == shake256_stream_pos(*old(s)) + old(out).len(),
{
    s.reader.read(out);
}

/// `Sha3_256::default()`: a hasher that has absorbed nothing.
#[verifier::external_body]
fn sha3_256_start() -> (h: Sha3_256Absorb)
    ensures
        sha3_256_absorbed(h) == Seq::<u8>::empty(),
{
    Sha3_256Absorb { h: sha3::Sha3_256::default() }
}

/// `Update::update` on a SHA3-256 hasher appends `x` to the input.
#[verifier::external_body]
fn sha3_256_update(h: &mut Sha3_256Absorb, x: &[u8])
    ensures
        sha3_256_absorbed(*final(h)) == sha3_256_absorbed(*old(h)) + x@,
{
    h.h.update(x);
}

/// `FixedOutput::finalize_into`: the 32-byte digest of the absorbed
/// input.
#[verifier::external_body]
fn sha3_256_finish(h: Sha3_256Absorb) -> (d: [u8; 32])
    ensures
        d@ == sha3_256_digest(sha3_256_absorbed(h)),
{
    let mut out = [0u8; 32];
    h.h.finalize_into((&mut out).into());
    out
}

/// `Sha3_512::default()`: a hasher that has absorbed nothing.
#[verifier::external_body]
fn sha3_512_start() -> (h: Sha3_512Absorb)
    ensures
        sha3_512_absorbed(h) == Seq::<u8>::empty(),
{
    Sha3_512Absorb { h: sha3::Sha3_512::default() }
}

/// `Update::update` on a SHA3-512 hasher appends `x` to the input.
#[verifier::external_body]
fn sha3_512_update(h: &mut Sha3_512Absorb, x: &[u8])
    ensures
        sha3_512_absorbed(*final(h)) == sha3_512_absorbed(*old(h)) + x@,
{
    h.h.update(x);
}

/// `FixedOutput::finalize_into`: the 64-byte digest of the absorbed
/// input.
#[verifier::external_body]
fn sha3_512_finish(h: Sha3_512Absorb) -> (d: [u8; 64])
    ensures
        d@ == sha3_512_digest(sha3_512_absorbed(h)),
{
    let mut out = [0u8; 64];
    h.h.finalize_into((&mut out).into());
    out
}

proof fn lemma_concat_step(inputs: Seq<&[u8]>, i: int)
    requires
        0 <= i < inputs.len(),
    ensures
        concat_pieces(pieces_of(inputs.subrange(0, i + 1))) == concat_pieces(
            pieces_of(inputs.subrange(0, i)),
        ) + inputs[i]@,
{
    let a = pieces_of(inputs.subrange(0, i + 1));
    let b = pieces_of(inputs.subrange(0, i));
    assert(a.drop_last() =~= b);
}

impl Shake128Stream {
    /// SHAKE-128 rate in bytes (`(1600 - 2 * 128) / 8`).
    pub const RATE: usize = 168;

    /// Absorb the concatenation of `inputs` and start squeezing.
    pub fn new(inputs: &[&[u8]]) -> (s: Self)
        ensures
            shake128_stream_input(s) == concat_pieces(pieces_of(inputs@)),
            shake128_stream_pos(s) == 0,
    {
        let mut h = shake128_start();
        proof {
            assert(pieces_of(inputs@.subrange(0, 0)) =~= Seq::<Seq<u8>>::empty());
        }
        for i in 0..inputs.len()
            invariant
                shake128_absorbed(h) == concat_pieces(pieces_of(inputs@.subrange(0, i as int))),
        {
            proof {
                lemma_concat_step(inputs@, i as int);
            }
            shake128_update(&mut h, inputs[i]);
        }
        proof {
            assert(inputs@.subrange(0, inputs.len() as int) =~= inputs@);
        }
        shake128_finish(h)
    }

    /// Fill `out` with the next bytes of the output.
    pub fn squeeze(&mut self, out: &mut [u8])
        ensures
            final(out).len() == old(out).len(),
            final(out)@ == shake128_bytes(
                shake128_stream_input(*old(self)),
                shake128_stream_pos(*old(self)),
                old(out).len() as nat,
            ),
            shake128_stream_input(*final(self)) == shake128_stream_input(*old(self)),
            shake128_stream_pos(*final(self)) == shake128_stream_pos(*old(self)) + old(out).len(),
    {
        shake128_read(self, out);
        proof {
            assert(out@ =~= shake128_bytes(
                shake128_stream_input(*old(self)),
                shake128_stream_pos(*old(self)),
                old(out).len() as nat,
            ));
        }
    }
}

impl Shake256Stream {
    /// SHAKE-256 rate in bytes (`(1600 - 2 * 256) / 8`).
    pub const RATE: usize = 136;

    /// Absorb the concatenation of `inputs` and start squeezing.
    pub fn new(inputs: &[&[u8]]) -> (s: Self)
        ensures
            shake256_stream_input(s) == concat_pieces(pieces_of(inputs@)),
            shake256_stream_pos(s) == 0,
    {
        let mut h = shake256_start();
        proof {
            assert(pieces_of(inputs@.subrange(0, 0)) =~= Seq::<Seq<u8>>::empty());
        }
        for i in 0..inputs.len()
            invariant
                shake256_absorbed(h) == concat_pieces(pieces_of(inputs@.subrange(0, i as int))),
        {
            proof {
                lemma_concat_step(inputs@, i as int);
            }
            shake256_update(&mut h, inputs[i]);
        }
        proof {
            assert(inputs@.subrange(0, inputs.len() as int) =~= inputs@);
        }
        shake256_finish(h)
    }

    /// Fill `out` with the next bytes of the output.
    pub fn squeeze(&mut self, out: &mut [u8])
        ensures
            final(out).len() == old(out).len(),
            final(out)@ == shake256_bytes(
                shake256_stream_input(*old(self)),
                shake256_stream_pos(*old(self)),
                old(out).len() as nat,
            ),
            shake256_stream_input(*final(self)) == shake256_stream_input(*old(self)),
            shake256_stream_pos(*final(self)) == shake256_stream_pos(*old(self)) + old(out).len(),
    {
        shake256_read(self, out);
        proof {
            assert(out@ =~= shake256_bytes(
                shake256_stream_input(*old(self)),
                shake256_stream_pos(*old(self)),
                old(out).len() as nat,
            ));
        }
    }
}

/// SHAKE-256 of the concatenation of `inputs`, one-shot, into `out`.
pub fn shake256(inputs: &[&[u8]], out: &mut [u8])
    ensures
        final(out).len() == old(out).len(),
        final(out)@ == shake256_bytes(concat_pieces(pieces_of(inputs@)), 0, old(out).len() as nat),
{
    let mut s = Shake256Stream::new(inputs);
    s.squeeze(out);
}

/// SHAKE-256 of `prefix` followed by the concatenation of `inputs`,
/// one-shot, into `out`.
pub fn shake256_prefixed(prefix: &[u8], inputs: &[&[u8]], out: &mut [u8])
    ensures
        final(out).len() == old(out).len(),
        final(out)@ == shake256_bytes(prefix@ + concat_pieces(pieces_of(inputs@)), 0, old(out).len() as nat),
{
    let mut h = shake256_start();
    shake256_update(&mut h, prefix);
    proof {
        assert(pieces_of(inputs@.subrange(0, 0)) =~= Seq::<Seq<u8>>::empty());
        assert(Seq::<u8>::empty() + prefix@ =~= prefix@ + Seq::<u8>::empty());
    }
    for i in 0..inputs.len()
        invariant
            shake256_absorbed(h) == prefix@ + concat_pieces(pieces_of(inputs@.subrange(0, i as int))),
    {
        proof {
            lemma_concat_step(inputs@, i as int);
            let c = concat_pieces(pieces_of(inputs@.subrange(0, i as int)));
            assert(prefix@ + c + inputs[i as int]@ =~= prefix@ + (c + inputs[i as int]@));
        }
        shake256_update(&mut h, inputs[i]);
    }
    proof {
        assert(inputs@.subrange(0, inputs.len() as int) =~= inputs@);
    }
    let mut s = shake256_finish(h);
    shake256_read(&mut s, out);
    proof {
        let inp = prefix@ + concat_pieces(pieces_of(inputs@));
        assert forall|k: int| 0 <= k < out@.len() implies #[trigger] out@[k] == shake256_bytes(inp, 0, out@.len() as nat)[k] by {
            assert(shake256_bytes(inp, 0, out@.len() as nat)[k] == shake256_byte(inp, k as nat));
        }
        assert(out@ =~= shake256_bytes(inp, 0, out@.len() as nat));
    }
}

/// SHAKE-128 of the concatenation of `inputs`, one-shot, into `out`.
pub fn shake128(inputs: &[&[u8]], out: &mut [u8])
    ensures
        final(out).len() == old(out).len(),
        final(out)@ == shake128_bytes(concat_pieces(pieces_of(inputs@)), 0, old(out).len() as nat),
{
    let mut s = Shake128Stream::new(inputs);
    s.squeeze(out);
}

/// SHA3-256 of the concatenation of `inputs` (FIPS 203's `H`).
pub fn sha3_256(inputs: &[&[u8]]) -> (d: [u8; 32])
    ensures
        d@ == sha3_256_digest(concat_pieces(pieces_of(inputs@))),
{
    let mut h = sha3_256_start();
    proof {
        assert(pieces_of(inputs@.subrange(0, 0)) =~= Seq::<Seq<u8>>::empty());
    }
    for i in 0..inputs.len()
        invariant
            sha3_256_absorbed(h) == concat_pieces(pieces_of(inputs@.subrange(0, i as int))),
    {
        proof {
            lemma_concat_step(inputs@, i as int);
        }
        sha3_256_update(&mut h, inputs[i]);
    }
    proof {
        assert(inputs@.subrange(0, inputs.len() as int) =~= inputs@);
    }
    sha3_256_finish(h)
}

/// SHA3-512 of the concatenation of `inputs` (FIPS 203's `G`).
pub fn sha3_512(inputs: &[&[u8]]) -> (d: [u8; 64])
    ensures
        d@ == sha3_512_digest(concat_pieces(pieces_of(inputs@))),
{
    let mut h = sha3_512_start();
    proof {
        assert(pieces_of(inputs@.subrange(0, 0)) =~= Seq::<Seq<u8>>::empty());
    }
    for i in 0..inputs.len()
        invariant
            sha3_512_absorbed(h) == concat_pieces(pieces_of(inputs@.subrange(0, i as int))),
    {
        proof {
            lemma_concat_step(inputs@, i as int);
        }
        sha3_512_update(&mut h, inputs[i]);
    }
    proof {
        assert(inputs@.subrange(0, inputs.len() as int) =~= inputs@);
    }
    sha3_512_finish(h)
}

/// Putting one more piece in front of a list puts its bytes in front
/// of the concatenation.
pub proof fn lemma_concat_prepend(a: Seq<u8>, s: Seq<Seq<u8>>)
    ensures
        concat_pieces(seq![a] + s) == a + concat_pieces(s),
    decreases s.len(),
{
    if s.len() == 0 {
        let t = seq![a] + s;
        assert(t.drop_last() =~= Seq::<Seq<u8>>::empty());
        assert(concat_pieces(t.drop_last()) == Seq::<u8>::empty());
        assert(concat_pieces(t) == concat_pieces(t.drop_last()) + t.last());
        assert(Seq::<u8>::empty() + a =~= a);
        assert(concat_pieces(s) == Seq::<u8>::empty());
        assert(a + Seq::<u8>::empty() =~= a);
    } else {
        let t = seq![a] + s;
        assert(t.drop_last() =~= seq![a] + s.drop_last());
        assert(t.last() == s.last());
        lemma_concat_prepend(a, s.drop_last());
        assert(a + concat_pieces(s.drop_last()) + s.last() =~= a + (concat_pieces(s.drop_last())
            + s.last()));
    }
}

/// Absorbing a list of up to three slices absorbs their concatenation.
pub proof fn lemma_concat_small(inputs: Seq<&[u8]>)
    requires
        1 <= inputs.len() <= 3,
    ensures
        inputs.len() == 1 ==> concat_pieces(pieces_of(inputs)) == inputs[0]@,
        inputs.len() == 2 ==> concat_pieces(pieces_of(inputs)) == inputs[0]@ + inputs[1]@,
        inputs.len() == 3 ==> concat_pieces(pieces_of(inputs)) == inputs[0]@ + inputs[1]@
            + inputs[2]@,
{
    reveal_with_fuel(concat_pieces, 4);
    let p = pieces_of(inputs);
    assert(p.drop_last().len() == inputs.len() - 1);
    if inputs.len() >= 2 {
        assert(p.drop_last().drop_last().len() == inputs.len() - 2);
    }
    if inputs.len() == 1 {
        assert(p.drop_last() =~= Seq::<Seq<u8>>::empty());
        assert(Seq::<u8>::empty() + inputs[0]@ =~= inputs[0]@);
    } else if inputs.len() == 2 {
        assert(p.drop_last().drop_last() =~= Seq::<Seq<u8>>::empty());
        assert(Seq::<u8>::empty() + inputs[0]@ =~= inputs[0]@);
    } else {
        assert(p.drop_last().drop_last().drop_last() =~= Seq::<Seq<u8>>::empty());
        assert(Seq::<u8>::empty() + inputs[0]@ =~= inputs[0]@);
    }
}

} // verus!
