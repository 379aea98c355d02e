//! A seeded hash of byte sequences, for hash tables and the like.
//!
//! A [`Hash`] gathers bytes in a buffer of [`BUF_SIZE`] bytes and mixes each
//! full buffer into a running state, which starts as the seed. The digest
//! depends on the key, the seed and the bytes written, and on nothing else: not
//! on how the bytes were cut into writes.
//!
//! The key and fresh seeds come from the system's source of randomness. The
//! hash is not cryptographic.
use vstd::prelude::*;
use vstd::slice::slice_subrange;
use vstd::string::StringSliceAdditionalSpecFns;

use crate::encoding::{le_bytes_u64, push_u64_le, start};
use crate::Hash as _;
use crate::Hash64;

pub mod memhash;

verus! {

/// The number of bytes that an engine gathers before it mixes them in.
pub const BUF_SIZE: usize = 128;

/// The number of bytes in a key.
pub const KEY_SIZE: usize = 32;

/// How many words `Seed::new` draws before it gives up on finding one that is not zero.
pub const SEED_DRAWS: usize = 64;

/// Why no key or seed could be made.
#[derive(Clone, Copy, Debug, PartialEq, Eq)]
pub enum EntropyError {
    /// The system's source of randomness reported a failure.
    Unavailable,
    /// Every word drawn for a seed was zero.
    OnlyZeros,
}

/// The error of `getrandom::getrandom`, which is carried and never looked into.
#[verifier::external_type_specification]
#[verifier::external_body]
pub struct ExGetrandomError(getrandom::Error);

/// Asks `getrandom::getrandom` to fill a new buffer of `n` bytes. The
/// contract claims only that on success the buffer still has `n` bytes; of
/// the bytes themselves, and of when the call fails, nothing is claimed.
#[verifier::external_body]
fn random_bytes(n: usize) -> (r: Result<Vec<u8>, getrandom::Error>)
    requires
        n <= KEY_SIZE,
    ensures
        r matches Ok(v) ==> v@.len() == n,
{
    let mut v = vec![0u8; n];
    match getrandom::getrandom(&mut v) {
        Ok(()) => Ok(v),
        Err(e) => Err(e),
    }
}

/// The eight bytes of `b` from `off` on as a word, most significant byte first.
pub open spec fn spec_be_word(b: Seq<u8>, off: int) -> u64 {
    ((b[off] as u64) << 56) | ((b[off + 1] as u64) << 48) | ((b[off + 2] as u64) << 40) | ((b[off
        + 3] as u64) << 32) | ((b[off + 4] as u64) << 24) | ((b[off + 5] as u64) << 16) | ((b[off
        + 6] as u64) << 8) | (b[off + 7] as u64)
}

/// Reads eight bytes of `b` from `off` on as a word, most significant byte first.
pub fn be_word(b: &[u8], off: usize) -> (r: u64)
    requires
        off + 8 <= b.len(),
    ensures
        r == spec_be_word(b@, off as int),
{
    ((b[off] as u64) << 56) | ((b[off + 1] as u64) << 48) | ((b[off + 2] as u64) << 40) | ((b[off
        + 3] as u64) << 32) | ((b[off + 4] as u64) << 24) | ((b[off + 5] as u64) << 16) | ((b[off
        + 6] as u64) << 8) | (b[off + 7] as u64)
}

/// Draws one random word: eight bytes from the system's source, read most
/// significant byte first. Where the source fails, the error is
/// [`EntropyError::Unavailable`]; of the word itself nothing can be said.
fn rand_u64() -> (r: Result<u64, EntropyError>)
    ensures
        r matches Err(e) ==> e == EntropyError::Unavailable,
{
    match random_bytes(8) {
        Ok(v) => Ok(be_word(v.as_slice(), 0)),
        Err(_) => Err(EntropyError::Unavailable),
    }
}

/// The random value that every engine of a process shares. It is drawn once
/// and handed to each engine that is made.
#[derive(Clone, Copy)]
pub struct HashKey {
    words: [u64; 4],
}

impl View for HashKey {
    type V = Seq<u64>;

    closed spec fn view(&self) -> Seq<u64> {
        self.words@
    }
}

impl HashKey {
    /// The word of the key that the mixing primitive folds into the seed.
    pub open spec fn word(&self) -> u64 {
        self@[0]
    }

    /// Returns the word of the key that the mixing primitive folds into the seed.
    pub fn first(&self) -> (r: u64)
        ensures
            r == self.word(),
    {
        self.words[0]
    }

    /// Returns the key made of `words`.
    pub fn from_words(words: [u64; 4]) -> (key: HashKey)
        ensures
            key@ == words@,
    {
        HashKey { words }
    }

    /// Returns the key whose four words are read from the 32 bytes of `b`,
    /// each most significant byte first.
    pub fn from_bytes(b: &[u8]) -> (key: HashKey)
        requires
            b@.len() == KEY_SIZE,
        ensures
            key@.len() == 4,
            forall|i: int| 0 <= i < 4 ==> key@[i] == spec_be_word(b@, 8 * i),
    {
        HashKey { words: [be_word(b, 0), be_word(b, 8), be_word(b, 16), be_word(b, 24)] }
    }

    /// Draws a key from the system's source of randomness.
    pub fn new() -> (r: Result<HashKey, EntropyError>)
        ensures
            r matches Err(e) ==> e == EntropyError::Unavailable,
    {
        match random_bytes(KEY_SIZE) {
            Ok(v) => Ok(HashKey::from_bytes(v.as_slice())),
            Err(_) => Err(EntropyError::Unavailable),
        }
    }
}

/// A value that selects the hash function that a [`Hash`] computes. It is
/// never zero. Its view is its word.
#[derive(Clone, Copy)]
pub struct Seed {
    word: u64,
}

impl View for Seed {
    type V = u64;

    closed spec fn view(&self) -> u64 {
        self.word
    }
}

impl Seed {
    #[verifier::type_invariant]
    spec fn inv(self) -> bool {
        self.word != 0
    }

    /// Returns the seed with the word `w`, if `w` may be one.
    pub fn from_word(w: u64) -> (r: Option<Seed>)
        ensures
            w == 0 <==> r is None,
            r matches Some(s) ==> s@ == w,
    {
        if w == 0 {
            None
        } else {
            Some(Seed { word: w })
        }
    }

    /// Draws a random seed. Words are drawn until one is not zero, at most
    /// [`SEED_DRAWS`] of them.
    pub fn new() -> (r: Result<Seed, EntropyError>)
        ensures
            r matches Ok(s) ==> s@ != 0,
    {
        let mut i: usize = 0;
        while i < SEED_DRAWS
            invariant
                i <= SEED_DRAWS,
            decreases SEED_DRAWS - i,
        {
            match rand_u64() {
                Ok(w) => {
                    if let Some(s) = Seed::from_word(w) {
                        return Ok(s);
                    }
                },
                Err(e) => {
                    return Err(e);
                },
            }
            i += 1;
        }
        Err(EntropyError::OnlyZeros)
    }
}

/// Draws a random seed.
pub fn make_seed() -> (r: Result<Seed, EntropyError>)
    ensures
        r matches Ok(s) ==> s@ != 0,
{
    Seed::new()
}

/// Copies bytes from the front of `src` to the front of `dst`, as many as
/// both hold, and returns how many were copied.
pub fn copy(dst: &mut [u8], src: &[u8]) -> (n: usize)
    ensures
        n == if old(dst)@.len() <= src@.len() {
            old(dst)@.len()
        } else {
            src@.len()
        },
        final(dst)@ == src@.take(n as int) + old(dst)@.skip(n as int),
{
    let n: usize = if dst.len() <= src.len() {
        dst.len()
    } else {
        src.len()
    };
    let mut i: usize = 0;
    while i < n
        invariant
            i <= n,
            n <= src@.len(),
            n <= dst@.len(),
            dst@.len() == old(dst)@.len(),
            dst@ =~= src@.take(i as int) + old(dst)@.skip(i as int),
        decreases n - i,
    {
        dst[i] = src[i];
        i += 1;
    }
    n
}

/// The state after the block `block` is mixed into `seed`. An empty block
/// leaves the state as it is.
pub open spec fn spec_rthash(block: Seq<u8>, seed: u64, k: u64) -> u64 {
    if block.len() == 0 {
        seed
    } else {
        memhash::spec_sum(block, seed, k)
    }
}

/// Mixes the first `len` bytes of `ptr` into `seed`.
pub fn rthash(ptr: &[u8], len: usize, seed: u64, key: &HashKey) -> (r: u64)
    requires
        len <= ptr@.len(),
    ensures
        r == spec_rthash(ptr@.take(len as int), seed, key.word()),
{
    if len == 0 {
        return seed;
    }
    let block = slice_subrange(ptr, 0, len);
    assert(block@ =~= ptr@.take(len as int));
    memhash::sum(block, seed, key)
}

/// The state after the whole blocks of `bytes`, one after the other, are
/// mixed into `seed`.
pub open spec fn spec_absorb(bytes: Seq<u8>, seed: u64, k: u64) -> u64
    decreases bytes.len(),
{
    if bytes.len() < BUF_SIZE {
        seed
    } else {
        let cut = bytes.len() - BUF_SIZE;
        spec_rthash(bytes.skip(cut), spec_absorb(bytes.take(cut), seed, k), k)
    }
}

/// The digest of `bytes` under `seed`: the whole blocks are mixed in, then
/// what is left after them.
pub open spec fn spec_digest(bytes: Seq<u8>, seed: u64, k: u64) -> u64 {
    let cut = (bytes.len() / BUF_SIZE as nat) * BUF_SIZE;
    spec_rthash(bytes.skip(cut), spec_absorb(bytes.take(cut), seed, k), k)
}

/// What a [`Hash`] stands for: the key word and the seed it works with, and
/// the bytes written since it was made, reset or given a seed.
pub struct Model {
    pub key: u64,
    pub seed: u64,
    pub written: Seq<u8>,
}

/// An engine that computes a seeded hash of the bytes written to it.
///
/// The bytes written are those of the whole blocks that were mixed into the
/// state, and after them those that wait in the buffer.
pub struct Hash {
    key: HashKey,
    seed: Seed,
    state: u64,
    buf: [u8; 128],
    n: usize,
    absorbed: Ghost<Seq<u8>>,
}

impl View for Hash {
    type V = Model;

    closed spec fn view(&self) -> Model {
        Model {
            key: self.key.word(),
            seed: self.seed@,
            written: self.absorbed@ + self.buf@.take(self.n as int),
        }
    }
}

/// Mixing in one more block continues the state after the blocks before it.
proof fn lemma_absorb_block(blocks: Seq<u8>, block: Seq<u8>, seed: u64, k: u64)
    requires
        block.len() == BUF_SIZE,
    ensures
        spec_absorb(blocks + block, seed, k) == spec_rthash(
            block,
            spec_absorb(blocks, seed, k),
            k,
        ),
{
    let all = blocks + block;
    let cut = all.len() - BUF_SIZE;
    assert(all.skip(cut) =~= block);
    assert(all.take(cut) =~= blocks);
}

impl Hash {
    /// The buffer holds at most a block, and the state is that after the
    /// whole blocks that were mixed in.
    #[verifier::type_invariant]
    spec fn inv(self) -> bool {
        &&& self.n <= BUF_SIZE
        &&& self.absorbed@.len() % (BUF_SIZE as nat) == 0
        &&& self.state == spec_absorb(self.absorbed@, self.seed@, self.key.word())
    }

    /// Returns an engine with the seed `seed` that has taken no bytes.
    pub fn with_seed(key: HashKey, seed: Seed) -> (h: Hash)
        ensures
            h@ == (Model { key: key.word(), seed: seed@, written: Seq::empty() }),
    {
        let h = Hash {
            key,
            seed,
            state: seed.word,
            buf: [0u8; 128],
            n: 0,
            absorbed: Ghost(Seq::empty()),
        };
        assert(h@.written =~= Seq::<u8>::empty());
        h
    }

    /// Returns an engine with a random seed that has taken no bytes.
    pub fn new(key: HashKey) -> (r: Result<Hash, EntropyError>)
        ensures
            r matches Ok(h) ==> h@.key == key.word() && h@.seed != 0 && h@.written == Seq::<
                u8,
            >::empty(),
    {
        match Seed::new() {
            Ok(seed) => Ok(Hash::with_seed(key, seed)),
            Err(e) => Err(e),
        }
    }

    /// Returns the engine's seed.
    pub fn seed(&self) -> (s: &Seed)
        ensures
            s@ == self@.seed,
            s@ != 0,
    {
        proof {
            use_type_invariant(&self.seed);
        }
        &self.seed
    }

    /// Makes the engine use `s`. The bytes written before are forgotten.
    pub fn set_seed(&mut self, s: Seed)
        ensures
            final(self)@ == (Model { key: old(self)@.key, seed: s@, written: Seq::empty() }),
    {
        *self = Hash {
            key: self.key,
            seed: s,
            state: s.word,
            buf: self.buf,
            n: 0,
            absorbed: Ghost(Seq::empty()),
        };
        assert(self@.written =~= Seq::<u8>::empty());
    }

    /// Mixes the full buffer into the state and empties it.
    fn flush(&mut self)
        requires
            old(self).n == BUF_SIZE,
        ensures
            final(self).n == 0,
            final(self)@ == old(self)@,
    {
        proof {
            use_type_invariant(&*self);
            lemma_absorb_block(
                self.absorbed@,
                self.buf@.take(BUF_SIZE as int),
                self.seed@,
                self.key.word(),
            );
        }
        let state = rthash(self.buf.as_slice(), self.n, self.state, &self.key);
        *self = Hash {
            key: self.key,
            seed: self.seed,
            state,
            buf: self.buf,
            n: 0,
            absorbed: Ghost(self.absorbed@ + self.buf@.take(BUF_SIZE as int)),
        };
        assert(self@.written =~= old(self)@.written);
    }

    /// Mixes the block of `src` that starts at `off` into the state, past the
    /// empty buffer.
    fn absorb(&mut self, src: &[u8], off: usize)
        requires
            old(self).n == 0,
            off + BUF_SIZE <= src.len(),
        ensures
            final(self).n == 0,
            final(self)@ == Self::spec_write(
                old(self)@,
                src@.subrange(off as int, off + BUF_SIZE),
            ),
    {
        let ghost block = src@.subrange(off as int, off + BUF_SIZE);
        let rest = slice_subrange(src, off, src.len());
        proof {
            use_type_invariant(&*self);
            assert(rest@.take(BUF_SIZE as int) =~= block);
            lemma_absorb_block(self.absorbed@, block, self.seed@, self.key.word());
        }
        let state = rthash(rest, BUF_SIZE, self.state, &self.key);
        *self = Hash {
            key: self.key,
            seed: self.seed,
            state,
            buf: self.buf,
            n: 0,
            absorbed: Ghost(self.absorbed@ + block),
        };
        assert(self@.written =~= old(self)@.written + block);
    }

    /// Copies bytes of `src` from `from` on behind the bytes in the buffer,
    /// as many as fit.
    fn fill(&mut self, src: &[u8], from: usize) -> (k: usize)
        requires
            from <= src.len(),
        ensures
            k == if BUF_SIZE - old(self).n <= src.len() - from {
                BUF_SIZE - old(self).n
            } else {
                src.len() - from
            },
            final(self).n == old(self).n + k,
            final(self)@ == Self::spec_write(old(self)@, src@.subrange(from as int, from + k)),
    {
        proof {
            use_type_invariant(&*self);
        }
        let room: usize = BUF_SIZE - self.n;
        let k: usize = if room <= src.len() - from {
            room
        } else {
            src.len() - from
        };
        let ghost n0 = self.n as int;
        let mut i: usize = 0;
        assert(src@.subrange(from as int, from + 0) =~= Seq::<u8>::empty());
        assert(self.buf@.take(n0) + Seq::<u8>::empty() =~= self.buf@.take(n0));
        while i < k
            invariant
                i <= k,
                from + k <= src.len(),
                n0 + k <= BUF_SIZE,
                self.n == n0 + i,
                self.key == old(self).key,
                self.seed == old(self).seed,
                self.state == old(self).state,
                self.absorbed@ == old(self).absorbed@,
                self.buf@.take(self.n as int) == old(self).buf@.take(n0) + src@.subrange(
                    from as int,
                    from + i,
                ),
            decreases k - i,
        {
            proof {
                use_type_invariant(&*self);
            }
            let ghost held = self.buf@;
            let ghost taken = src@.subrange(from as int, from + i);
            let b = src[from + i];
            self.buf[self.n] = b;
            self.n += 1;
            i += 1;
            proof {
                assert(src@.subrange(from as int, from + i) =~= taken.push(b));
                assert(self.buf@.take(self.n as int) =~= held.take(self.n - 1).push(b));
                assert(held.take(self.n - 1).push(b) =~= old(self).buf@.take(n0) + taken.push(b));
            }
        }
        assert(self@.written =~= old(self)@.written + src@.subrange(from as int, from + k));
        k
    }

    /// Adds `b` to the bytes hashed.
    pub fn write_byte(&mut self, b: u8)
        ensures
            final(self)@ == Self::spec_write(old(self)@, seq![b]),
    {
        if self.n == BUF_SIZE {
            self.flush();
        }
        proof {
            use_type_invariant(&*self);
        }
        let ghost held = self.buf@;
        self.buf[self.n] = b;
        self.n += 1;
        proof {
            assert(self.buf@.take(self.n as int) =~= held.take(self.n - 1).push(b));
            assert(self@.written =~= old(self)@.written + seq![b]);
        }
    }

    /// Adds the bytes of `s` to the bytes hashed and returns how many they are.
    pub fn write_string(&mut self, s: &str) -> (n: usize)
        ensures
            n == s.spec_bytes().len(),
            final(self)@ == Self::spec_write(old(self)@, s.spec_bytes()),
    {
        self.write(s.as_bytes())
    }
}

impl crate::Hash for Hash {
    open spec fn spec_write(m: Model, bytes: Seq<u8>) -> Model {
        Model { key: m.key, seed: m.seed, written: m.written + bytes }
    }

    open spec fn spec_reset(m: Model) -> Model {
        Model { key: m.key, seed: m.seed, written: Seq::empty() }
    }

    open spec fn spec_sum(m: Model) -> Seq<u8> {
        le_bytes_u64(spec_digest(m.written, m.seed, m.key))
    }

    proof fn lemma_write_concat(m: Model, a: Seq<u8>, b: Seq<u8>) {
        assert(m.written + Seq::<u8>::empty() =~= m.written);
        assert((m.written + a) + b =~= m.written + (a + b));
    }

    proof fn lemma_reset_forgets(m: Model, bytes: Seq<u8>) {
    }

    fn write(&mut self, buf: &[u8]) -> (n: usize) {
        let size: usize = buf.len();
        let mut off: usize = 0;
        if self.n > 0 {
            let k = self.fill(buf, 0);
            assert(buf@.subrange(0, k as int) =~= buf@.take(k as int));
            if self.n < BUF_SIZE {
                assert(buf@.take(k as int) =~= buf@);
                return size;
            }
            off = k;
            self.flush();
        } else {
            proof {
                Self::lemma_write_concat(self@, Seq::empty(), Seq::empty());
                assert(buf@.take(0) =~= Seq::<u8>::empty());
            }
        }
        while size - off > BUF_SIZE
            invariant
                size == buf.len(),
                off <= size,
                self.n == 0,
                self@ == Self::spec_write(old(self)@, buf@.take(off as int)),
            decreases size - off,
        {
            self.absorb(buf, off);
            proof {
                Self::lemma_write_concat(
                    old(self)@,
                    buf@.take(off as int),
                    buf@.subrange(off as int, off + BUF_SIZE),
                );
                assert(buf@.take(off as int) + buf@.subrange(off as int, off + BUF_SIZE)
                    =~= buf@.take(off + BUF_SIZE));
            }
            off += BUF_SIZE;
        }
        let k = self.fill(buf, off);
        proof {
            Self::lemma_write_concat(
                old(self)@,
                buf@.take(off as int),
                buf@.subrange(off as int, size as int),
            );
            assert(buf@.take(off as int) + buf@.subrange(off as int, size as int) =~= buf@);
        }
        size
    }

    fn sum(&mut self, b: Option<Vec<u8>>) -> (out: Vec<u8>) {
        let mut v = start(b);
        let s = self.sum64();
        push_u64_le(&mut v, s);
        v
    }

    fn reset(&mut self) {
        *self = Hash {
            key: self.key,
            seed: self.seed,
            state: self.seed.word,
            buf: self.buf,
            n: 0,
            absorbed: Ghost(Seq::empty()),
        };
        assert(self@.written =~= Seq::<u8>::empty());
    }

    fn size(&self) -> (n: usize)
        ensures
            n == 8,
    {
        8
    }

    fn block_size(&self) -> (n: usize)
        ensures
            n == BUF_SIZE,
    {
        BUF_SIZE
    }
}

/// Seed determinism: two engines with one key and one seed that have taken
/// nothing, and then take the same bytes, however these are cut into writes,
/// stand for the same digest.
pub proof fn lemma_seed_determines(a: Model, b: Model, xs: Seq<Seq<u8>>, ys: Seq<Seq<u8>>)
    requires
        a.key == b.key,
        a.seed == b.seed,
        a.written == Seq::<u8>::empty(),
        b.written == Seq::<u8>::empty(),
        crate::concat(xs) == crate::concat(ys),
    ensures
        Hash::spec_sum64(crate::spec_write_chunks::<Hash>(a, xs)) == Hash::spec_sum64(
            crate::spec_write_chunks::<Hash>(b, ys),
        ),
        Hash::spec_sum(crate::spec_write_chunks::<Hash>(a, xs)) == Hash::spec_sum(
            crate::spec_write_chunks::<Hash>(b, ys),
        ),
{
    crate::lemma_chunk_invariance::<Hash>(a, xs);
    crate::lemma_chunk_invariance::<Hash>(b, ys);
}

impl crate::Hash64 for Hash {
    open spec fn spec_sum64(m: Model) -> u64 {
        spec_digest(m.written, m.seed, m.key)
    }

    proof fn lemma_sum_is_word(m: Model) {
    }

    fn sum64(&mut self) -> (r: u64) {
        proof {
            use_type_invariant(&*self);
            let held = self.buf@.take(self.n as int);
            let done = self.absorbed@;
            let all = done + held;
            let len = all.len() as int;
            if self.n < BUF_SIZE {
                assert((len / BUF_SIZE as int) * BUF_SIZE == done.len());
                assert(all.take(done.len() as int) =~= done);
                assert(all.skip(done.len() as int) =~= held);
            } else {
                assert((len / BUF_SIZE as int) * BUF_SIZE == len);
                assert(all.take(len) =~= all);
                assert(all.skip(len) =~= Seq::<u8>::empty());
                lemma_absorb_block(done, held, self.seed@, self.key.word());
            }
        }
        rthash(self.buf.as_slice(), self.n, self.state, &self.key)
    }
}

} // verus!
