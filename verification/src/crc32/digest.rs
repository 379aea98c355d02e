//! The CRC-32 engine behind the incremental contract.
use vstd::prelude::*;

use crate::crc32::lemmas::{
    additive,
    lemma_slicing_is_bytewise_from,
    lemma_table_additive,
    lemma_update_concat,
};
use crate::crc32::slicing8::{slicing_make_table, slicing_update, spec_slicing_from, Slicing8Table};
use crate::crc32::{simple, spec_update, Table, CASTAGNOLI, IEEE, SIZE};
use crate::encoding::{be_bytes_u32, push_u32_be, start};

verus! {

/// What a [`Digest`] stands for: its table, and the checksum of what was
/// written.
pub struct Model {
    pub table: Seq<u32>,
    pub crc: u32,
}

/// A CRC-32 engine. For the Castagnoli and the IEEE polynomial it holds the
/// eight tables that let it take eight bytes at a time.
pub struct Digest {
    crc: u32,
    table: Table,
    fast: Option<Slicing8Table>,
}

impl View for Digest {
    type V = Model;

    closed spec fn view(&self) -> Model {
        Model { table: self.table@, crc: self.crc }
    }
}

impl Digest {
    /// Where the engine holds eight tables, they are those that follow from
    /// its table, and its table is additive.
    #[verifier::type_invariant]
    spec fn inv(self) -> bool {
        self.fast matches Some(t) ==> additive(self.table@) && t@ == spec_slicing_from(
            self.table@,
        )
    }

    /// Returns an engine with the table `table` that holds the checksum `crc`.
    pub fn new(crc: u32, table: Table) -> (d: Digest)
        ensures
            d@ == (Model { table: table@, crc }),
    {
        let fast = if table.is_table_of(CASTAGNOLI) {
            proof {
                lemma_table_additive(CASTAGNOLI);
            }
            Some(slicing_make_table(CASTAGNOLI))
        } else if table.is_table_of(IEEE) {
            proof {
                lemma_table_additive(IEEE);
            }
            Some(slicing_make_table(IEEE))
        } else {
            None
        };
        Digest { crc, table, fast }
    }
}

impl crate::Hash for Digest {
    open spec fn spec_write(m: Model, bytes: Seq<u8>) -> Model {
        Model { table: m.table, crc: spec_update(m.table, m.crc, bytes) }
    }

    open spec fn spec_reset(m: Model) -> Model {
        Model { table: m.table, crc: 0 }
    }

    open spec fn spec_sum(m: Model) -> Seq<u8> {
        be_bytes_u32(m.crc)
    }

    proof fn lemma_write_concat(m: Model, a: Seq<u8>, b: Seq<u8>) {
        lemma_update_concat(m.table, m.crc, a, b);
    }

    proof fn lemma_reset_forgets(m: Model, bytes: Seq<u8>) {
    }

    fn write(&mut self, buf: &[u8]) -> (n: usize) {
        proof {
            use_type_invariant(&*self);
        }
        self.crc = match &self.fast {
            Some(t) => {
                proof {
                    lemma_slicing_is_bytewise_from(self.table@, self.crc, buf@);
                }
                slicing_update(self.crc, t, buf)
            },
            None => simple::update(self.crc, &self.table, buf),
        };
        buf.len()
    }

    fn sum(&mut self, b: Option<Vec<u8>>) -> (out: Vec<u8>) {
        let mut v = start(b);
        push_u32_be(&mut v, self.crc);
        v
    }

    fn reset(&mut self) {
        proof {
            use_type_invariant(&*self);
        }
        self.crc = 0;
    }

    fn size(&self) -> (n: usize)
        ensures
            n == SIZE,
    {
        SIZE
    }

    fn block_size(&self) -> (n: usize)
        ensures
            n == 1,
    {
        1
    }
}

impl crate::Hash32 for Digest {
    open spec fn spec_sum32(m: Model) -> u32 {
        m.crc
    }

    proof fn lemma_sum_is_word(m: Model) {
    }

    fn sum32(&mut self) -> (r: u32) {
        self.crc
    }
}

} // verus!
