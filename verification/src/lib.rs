//! Non-cryptographic checksums and hashes behind one incremental contract.
//!
//! Every engine takes bytes in chunks of any size through [`Hash::write`] and
//! gives a digest of fixed width through [`Hash::sum`]. What an engine holds is
//! described by its view, and the contract of each operation is stated over
//! three functions of that view: `spec_write`, `spec_reset` and `spec_sum`.
use vstd::prelude::*;

pub mod adler32;
pub mod crc32;
pub mod crc64;
pub mod encoding;
pub mod fnv;
pub mod maphash;

verus! {

/// The operations that every engine offers.
///
/// The view of an engine is its model. `spec_write` says what the model is
/// after more bytes, `spec_reset` what it is after a reset, and `spec_sum`
/// which digest it stands for. The two proof functions are obligations of
/// every engine: writing in two pieces is writing the whole, and a reset
/// forgets what was written.
pub trait Hash: View + Sized {
    /// The model after `bytes` are written.
    spec fn spec_write(m: Self::V, bytes: Seq<u8>) -> Self::V;

    /// The model after a reset.
    spec fn spec_reset(m: Self::V) -> Self::V;

    /// The digest of the model.
    spec fn spec_sum(m: Self::V) -> Seq<u8>;

    /// Writing nothing changes nothing, and writing `a` and then `b` is writing `a + b`.
    proof fn lemma_write_concat(m: Self::V, a: Seq<u8>, b: Seq<u8>)
        ensures
            Self::spec_write(m, Seq::<u8>::empty()) == m,
            Self::spec_write(Self::spec_write(m, a), b) == Self::spec_write(m, a + b),
    ;

    /// A reset gives the same model whatever was written before it, and
    /// resetting twice is resetting once.
    proof fn lemma_reset_forgets(m: Self::V, bytes: Seq<u8>)
        ensures
            Self::spec_reset(Self::spec_write(m, bytes)) == Self::spec_reset(m),
            Self::spec_reset(Self::spec_reset(m)) == Self::spec_reset(m),
    ;

    /// Adds all of `buf` to the bytes hashed and returns how many were taken,
    /// which is always `buf.len()`.
    fn write(&mut self, buf: &[u8]) -> (n: usize)
        ensures
            n == buf@.len(),
            final(self)@ == Self::spec_write(old(self)@, buf@),
    ;

    /// Returns the digest, after the bytes of `b` where it is given. The
    /// engine stays as it was.
    fn sum(&mut self, b: Option<Vec<u8>>) -> (out: Vec<u8>)
        ensures
            final(self)@ == old(self)@,
            out@ == prefix_of(b) + Self::spec_sum(old(self)@),
    ;

    /// Brings the engine back to its initial state.
    fn reset(&mut self)
        ensures
            final(self)@ == Self::spec_reset(old(self)@),
    ;

    /// The number of bytes in a digest.
    fn size(&self) -> (n: usize)
        ensures
            n == Self::spec_sum(self@).len(),
    ;

    /// The size of write that suits the engine best. It is never zero.
    fn block_size(&self) -> (n: usize)
        ensures
            n > 0,
    ;
}

/// The bytes that `sum` is asked to put its digest behind.
pub open spec fn prefix_of(b: Option<Vec<u8>>) -> Seq<u8> {
    match b {
        Some(v) => v@,
        None => Seq::empty(),
    }
}

/// An engine whose digest is one 32-bit word.
pub trait Hash32: Hash {
    /// The word that the model stands for.
    spec fn spec_sum32(m: Self::V) -> u32;

    /// The digest is the word, most significant byte first.
    proof fn lemma_sum_is_word(m: Self::V)
        ensures
            Self::spec_sum(m) == encoding::be_bytes_u32(Self::spec_sum32(m)),
    ;

    /// Returns the digest as a word. The engine stays as it was.
    fn sum32(&mut self) -> (r: u32)
        ensures
            final(self)@ == old(self)@,
            r == Self::spec_sum32(old(self)@),
    ;
}

/// An engine whose digest is one 64-bit word.
pub trait Hash64: Hash {
    /// The word that the model stands for.
    spec fn spec_sum64(m: Self::V) -> u64;

    /// The digest is the word, either its most or its least significant byte
    /// first.
    proof fn lemma_sum_is_word(m: Self::V)
        ensures
            Self::spec_sum(m) == encoding::be_bytes_u64(Self::spec_sum64(m)) || Self::spec_sum(m)
                == encoding::le_bytes_u64(Self::spec_sum64(m)),
    ;

    /// Returns the digest as a word. The engine stays as it was.
    fn sum64(&mut self) -> (r: u64)
        ensures
            final(self)@ == old(self)@,
            r == Self::spec_sum64(old(self)@),
    ;
}

/// The model after each sequence of `chunks` is written in turn.
pub open spec fn spec_write_chunks<H: Hash>(m: H::V, chunks: Seq<Seq<u8>>) -> H::V
    decreases chunks.len(),
{
    if chunks.len() == 0 {
        m
    } else {
        H::spec_write(spec_write_chunks::<H>(m, chunks.drop_last()), chunks.last())
    }
}

/// All the bytes of `chunks`, in order.
pub open spec fn concat(chunks: Seq<Seq<u8>>) -> Seq<u8>
    decreases chunks.len(),
{
    if chunks.len() == 0 {
        Seq::empty()
    } else {
        concat(chunks.drop_last()) + chunks.last()
    }
}

/// Chunk invariance: however a byte sequence is cut into consecutive writes,
/// the engine ends in the state that one write of the whole gives, and so with
/// the same digest.
pub proof fn lemma_chunk_invariance<H: Hash>(m: H::V, chunks: Seq<Seq<u8>>)
    ensures
        spec_write_chunks::<H>(m, chunks) == H::spec_write(m, concat(chunks)),
        H::spec_sum(spec_write_chunks::<H>(m, chunks)) == H::spec_sum(
            H::spec_write(m, concat(chunks)),
        ),
    decreases chunks.len(),
{
    if chunks.len() == 0 {
        H::lemma_write_concat(m, Seq::empty(), Seq::empty());
    } else {
        lemma_chunk_invariance::<H>(m, chunks.drop_last());
        H::lemma_write_concat(m, concat(chunks.drop_last()), chunks.last());
    }
}

/// Reset idempotence: on an engine in its initial state, writing `bytes`,
/// resetting and writing `bytes` again gives the digest of the first write.
pub proof fn lemma_reset_repeats<H: Hash>(m: H::V, bytes: Seq<u8>)
    requires
        m == H::spec_reset(m),
    ensures
        H::spec_sum(H::spec_write(H::spec_reset(H::spec_write(m, bytes)), bytes)) == H::spec_sum(
            H::spec_write(m, bytes),
        ),
{
    H::lemma_reset_forgets(m, bytes);
}

} // verus!
