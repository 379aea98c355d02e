//! The 32-bit FNV-1 engine.
use vstd::prelude::*;

use crate::encoding::{be_bytes_u32, push_u32_be, start};
use crate::fnv::{fold32, lemma_fold32_concat, OFFSET32, PRIME32};

verus! {

/// A 32-bit FNV-1 engine. Its view is the hash of what was written.
pub struct Sum32(u32);

impl View for Sum32 {
    type V = u32;

    closed spec fn view(&self) -> u32 {
        self.0
    }
}

impl Sum32 {
    /// Returns an engine that has taken no bytes.
    pub fn new() -> (s: Self)
        ensures
            s@ == OFFSET32,
    {
        Self(OFFSET32)
    }
}

impl crate::Hash for Sum32 {
    open spec fn spec_write(m: u32, bytes: Seq<u8>) -> u32 {
        fold32(m, bytes)
    }

    open spec fn spec_reset(m: u32) -> u32 {
        OFFSET32
    }

    open spec fn spec_sum(m: u32) -> Seq<u8> {
        be_bytes_u32(m)
    }

    proof fn lemma_write_concat(m: u32, a: Seq<u8>, b: Seq<u8>) {
        lemma_fold32_concat(m, a, b);
    }

    proof fn lemma_reset_forgets(m: u32, bytes: Seq<u8>) {
    }

    fn write(&mut self, buf: &[u8]) -> (n: usize) {
        let mut h: u32 = self.0;
        let mut i: usize = 0;
        while i < buf.len()
            invariant
                i <= buf.len(),
                h == fold32(old(self)@, buf@.take(i as int)),
            decreases buf.len() - i,
        {
            assert(buf@.take(i + 1).drop_last() =~= buf@.take(i as int));
            h = h.wrapping_mul(PRIME32);
            h ^= buf[i] as u32;
            i += 1;
        }
        assert(buf@.take(buf.len() as int) =~= buf@);
        self.0 = h;
        buf.len()
    }

    fn sum(&mut self, b: Option<Vec<u8>>) -> (out: Vec<u8>) {
        let mut v = start(b);
        push_u32_be(&mut v, self.0);
        v
    }

    fn reset(&mut self) {
        self.0 = OFFSET32;
    }

    fn size(&self) -> (n: usize)
        ensures
            n == 4,
    {
        4
    }

    fn block_size(&self) -> (n: usize)
        ensures
            n == 1,
    {
        1
    }
}

impl crate::Hash32 for Sum32 {
    open spec fn spec_sum32(m: u32) -> u32 {
        m
    }

    proof fn lemma_sum_is_word(m: u32) {
    }

    fn sum32(&mut self) -> (r: u32) {
        self.0
    }
}

} // verus!
