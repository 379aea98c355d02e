//! The 64-bit FNV-1a engine.
use vstd::prelude::*;

use crate::encoding::{be_bytes_u64, push_u64_be, start};
use crate::fnv::{fold64a, lemma_fold64a_concat, OFFSET64, PRIME64};

verus! {

/// A 64-bit FNV-1a engine. Its view is the hash of what was written.
pub struct Sum64a(u64);

impl View for Sum64a {
    type V = u64;

    closed spec fn view(&self) -> u64 {
        self.0
    }
}

impl Sum64a {
    /// Returns an engine that has taken no bytes.
    pub fn new() -> (s: Self)
        ensures
            s@ == OFFSET64,
    {
        Self(OFFSET64)
    }
}

impl crate::Hash for Sum64a {
    open spec fn spec_write(m: u64, bytes: Seq<u8>) -> u64 {
        fold64a(m, bytes)
    }

    open spec fn spec_reset(m: u64) -> u64 {
        OFFSET64
    }

    open spec fn spec_sum(m: u64) -> Seq<u8> {
        be_bytes_u64(m)
    }

    proof fn lemma_write_concat(m: u64, a: Seq<u8>, b: Seq<u8>) {
        lemma_fold64a_concat(m, a, b);
    }

    proof fn lemma_reset_forgets(m: u64, bytes: Seq<u8>) {
    }

    fn write(&mut self, buf: &[u8]) -> (n: usize) {
        let mut h: u64 = self.0;
        let mut i: usize = 0;
        while i < buf.len()
            invariant
                i <= buf.len(),
                h == fold64a(old(self)@, buf@.take(i as int)),
            decreases buf.len() - i,
        {
            assert(buf@.take(i + 1).drop_last() =~= buf@.take(i as int));
            h ^= buf[i] as u64;
            h = h.wrapping_mul(PRIME64);
            i += 1;
        }
        assert(buf@.take(buf.len() as int) =~= buf@);
        self.0 = h;
        buf.len()
    }

    fn sum(&mut self, b: Option<Vec<u8>>) -> (out: Vec<u8>) {
        let mut v = start(b);
        push_u64_be(&mut v, self.0);
        v
    }

    fn reset(&mut self) {
        self.0 = OFFSET64;
    }

    fn size(&self) -> (n: usize)
        ensures
            n == 8,
    {
        8
    }

    fn block_size(&self) -> (n: usize)
        ensures
            n == 1,
    {
        1
    }
}

impl crate::Hash64 for Sum64a {
    open spec fn spec_sum64(m: u64) -> u64 {
        m
    }

    proof fn lemma_sum_is_word(m: u64) {
    }

    fn sum64(&mut self) -> (r: u64) {
        self.0
    }
}

} // verus!
