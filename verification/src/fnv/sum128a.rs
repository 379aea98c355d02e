//! The 128-bit FNV-1a engine.
//!
//! The hash is held in two words. A product with the 128-bit prime is made
//! from the products of these words and the low bits of the prime, with the
//! carry from the lower word taken into the higher.
use vstd::prelude::*;

use crate::encoding::{be_bytes_u64, push_u64_be, start};
use crate::fnv::{
    fold128a,
    higher,
    join,
    lemma_fold128a_concat,
    lemma_join,
    lemma_join_byte,
    lemma_times_prime,
    lower,
    OFFSET128_HIGHER,
    OFFSET128_LOWER,
    PRIME128_LOWER,
    PRIME128_SHIFT,
};

verus! {

/// A 128-bit FNV-1a engine: the higher and the lower word of the hash. Its
/// view is the hash of what was written, as one 128-bit word.
pub struct Sum128a(u64, u64);

impl View for Sum128a {
    type V = u128;

    closed spec fn view(&self) -> u128 {
        join(self.0, self.1)
    }
}

impl Sum128a {
    /// Returns an engine that has taken no bytes.
    pub fn new() -> (s: Self)
        ensures
            s@ == join(OFFSET128_HIGHER, OFFSET128_LOWER),
    {
        Self(OFFSET128_HIGHER, OFFSET128_LOWER)
    }
}

impl crate::Hash for Sum128a {
    open spec fn spec_write(m: u128, bytes: Seq<u8>) -> u128 {
        fold128a(m, bytes)
    }

    open spec fn spec_reset(m: u128) -> u128 {
        join(OFFSET128_HIGHER, OFFSET128_LOWER)
    }

    open spec fn spec_sum(m: u128) -> Seq<u8> {
        be_bytes_u64(higher(m)) + be_bytes_u64(lower(m))
    }

    proof fn lemma_write_concat(m: u128, a: Seq<u8>, b: Seq<u8>) {
        lemma_fold128a_concat(m, a, b);
    }

    proof fn lemma_reset_forgets(m: u128, bytes: Seq<u8>) {
    }

    fn write(&mut self, buf: &[u8]) -> (n: usize) {
        let mut i: usize = 0;
        while i < buf.len()
            invariant
                i <= buf.len(),
                self@ == fold128a(old(self)@, buf@.take(i as int)),
            decreases buf.len() - i,
        {
            assert(buf@.take(i + 1).drop_last() =~= buf@.take(i as int));
            let ghost (hi, lo) = (self.0, self.1);
            self.1 ^= buf[i] as u64;
            proof {
                lemma_join_byte(hi, lo, buf@[i as int]);
                lemma_times_prime(self.0, self.1);
            }
            let v: u128 = PRIME128_LOWER.wrapping_mul(self.1 as u128);
            let s1: u64 = v as u64;
            let s0: u64 = ((v >> 64) as u64).wrapping_add(
                self.1.wrapping_shl(PRIME128_SHIFT).wrapping_add(
                    PRIME128_LOWER.wrapping_mul(self.0 as u128) as u64,
                ),
            );
            self.1 = s1;
            self.0 = s0;
            i += 1;
        }
        assert(buf@.take(buf.len() as int) =~= buf@);
        buf.len()
    }

    fn sum(&mut self, b: Option<Vec<u8>>) -> (out: Vec<u8>) {
        let mut v = start(b);
        let ghost prefix = v@;
        push_u64_be(&mut v, self.0);
        push_u64_be(&mut v, self.1);
        proof {
            lemma_join(self.0, self.1);
            assert(v@ =~= prefix + (be_bytes_u64(self.0) + be_bytes_u64(self.1)));
        }
        v
    }

    fn reset(&mut self) {
        self.0 = OFFSET128_HIGHER;
        self.1 = OFFSET128_LOWER;
    }

    fn size(&self) -> (n: usize)
        ensures
            n == 16,
    {
        16
    }

    fn block_size(&self) -> (n: usize)
        ensures
            n == 1,
    {
        1
    }
}

} // verus!
