//! The 64-bit cyclic redundancy check, CRC-64.
//!
//! The model is that of CRC-32 at twice the width: polynomials are written
//! least significant bit first, a [`Table`] holds what eight steps of the
//! division leave of each byte, and the byte-wise walk over the input with
//! that table says what a checksum is.
use vstd::prelude::*;

use crate::crc64::digest::Digest;

pub mod digest;
pub mod lemmas;
pub mod slicing8;

verus! {

/// The ECMA polynomial, defined in ECMA 182.
pub const ECMA: u64 = 0xC96C5795D7870F42;

/// The ISO polynomial, defined in ISO 3309 and used in HDLC.
pub const ISO: u64 = 0xD800000000000000;

/// The size of a CRC-64 checksum in bytes.
pub const SIZE: usize = 8;

/// The length above which an update that holds no tables for eight bytes at
/// a time builds them for itself. The checksum does not depend on it.
pub const BUILD_CUTOFF: usize = 16384;

/// One step of the division by `poly`: the register moves one bit to the
/// right, and the polynomial is added where a one fell out.
pub open spec fn bit_step(poly: u64, c: u64) -> u64 {
    if c & 1 == 1 {
        (c >> 1) ^ poly
    } else {
        c >> 1
    }
}

/// `n` steps of the division.
pub open spec fn bit_steps(poly: u64, c: u64, n: nat) -> u64
    decreases n,
{
    if n == 0 {
        c
    } else {
        bit_step(poly, bit_steps(poly, c, (n - 1) as nat))
    }
}

/// The table of `poly`: entry `i` is what eight steps leave of the byte `i`.
pub open spec fn spec_table(poly: u64) -> Seq<u64> {
    Seq::new(256, |i: int| bit_steps(poly, i as u64, 8))
}

/// The register after one byte.
pub open spec fn byte_step(t: Seq<u64>, c: u64, b: u8) -> u64 {
    t[((c as u8) ^ b) as int] ^ (c >> 8)
}

/// The register after `bytes`, one byte after the other.
pub open spec fn fold(t: Seq<u64>, c: u64, bytes: Seq<u8>) -> u64
    decreases bytes.len(),
{
    if bytes.len() == 0 {
        c
    } else {
        byte_step(t, fold(t, c, bytes.drop_last()), bytes.last())
    }
}

/// The checksum `crc` continued by `bytes`, with the table `t`: the register
/// is the complement of the checksum.
pub open spec fn spec_update(t: Seq<u64>, crc: u64, bytes: Seq<u8>) -> u64 {
    !fold(t, !crc, bytes)
}

/// The checksum of `bytes` with the table `t`.
pub open spec fn spec_checksum(t: Seq<u64>, bytes: Seq<u8>) -> u64 {
    spec_update(t, 0, bytes)
}

/// A table of 256 words that stands for a polynomial. Its view is the
/// sequence of its words.
#[derive(Clone, Copy, Debug, PartialEq, Eq)]
pub struct Table(pub [u64; 256]);

impl View for Table {
    type V = Seq<u64>;

    open spec fn view(&self) -> Seq<u64> {
        self.0@
    }
}

impl Default for Table {
    /// The table of zeros, which is the table of the polynomial zero.
    fn default() -> (t: Table)
        ensures
            t@ == Seq::new(256, |i: int| 0u64),
    {
        let t = Table([0u64; 256]);
        assert(t@ =~= Seq::new(256, |i: int| 0u64));
        t
    }
}

impl Table {
    /// Returns the table of `poly`.
    pub fn from_poly(poly: u64) -> (t: Table)
        ensures
            t@ == spec_table(poly),
    {
        let mut out = Table::default();
        let mut i: usize = 0;
        while i < 256
            invariant
                i <= 256,
                forall|k: int| 0 <= k < i ==> out@[k] == bit_steps(poly, k as u64, 8),
            decreases 256 - i,
        {
            let mut crc: u64 = i as u64;
            let mut j: usize = 0;
            while j < 8
                invariant
                    j <= 8,
                    i < 256,
                    crc == bit_steps(poly, i as u64, j as nat),
                decreases 8 - j,
            {
                crc = if crc & 1 == 1 {
                    (crc >> 1) ^ poly
                } else {
                    crc >> 1
                };
                j += 1;
            }
            let ghost held = out@;
            out.0[i] = crc;
            proof {
                assert(out@ == held.update(i as int, crc));
                assert forall|k: int| 0 <= k < i + 1 implies out@[k] == bit_steps(
                    poly,
                    k as u64,
                    8,
                ) by {
                    if k < i {
                        assert(out@[k] == held[k]);
                    }
                }
            }
            i += 1;
        }
        assert(out@ =~= spec_table(poly));
        out
    }

    /// Tells whether the two tables hold the same words.
    pub fn same(&self, other: &Table) -> (r: bool)
        ensures
            r == (self@ == other@),
    {
        let mut i: usize = 0;
        while i < 256
            invariant
                i <= 256,
                forall|k: int| 0 <= k < i ==> self@[k] == other@[k],
            decreases 256 - i,
        {
            if self.0[i] != other.0[i] {
                return false;
            }
            i += 1;
        }
        assert(self@ =~= other@);
        true
    }

    /// Tells whether this is the table of `poly`.
    pub fn is_table_of(&self, poly: u64) -> (r: bool)
        ensures
            r == (self@ == spec_table(poly)),
    {
        let t = Table::from_poly(poly);
        self.same(&t)
    }
}

/// Returns the CRC-64 checksum of `data` with the polynomial that `table` stands for.
pub fn checksum(data: &[u8], table: &Table) -> (r: u64)
    ensures
        r == spec_checksum(table@, data@),
{
    update(0, table, data)
}

/// Returns the table of `poly`.
pub fn make_table(poly: u64) -> (t: Table)
    ensures
        t@ == spec_table(poly),
{
    Table::from_poly(poly)
}

/// Returns a new engine that computes the CRC-64 checksum with the
/// polynomial that `table` stands for. Its `sum` gives the checksum most
/// significant byte first.
pub fn new(table: Table) -> (d: Digest)
    ensures
        d@ == (digest::Model { table: table@, crc: 0 }),
{
    Digest::new(0, table)
}

/// Returns the checksum `crc` continued by the bytes of `p`, byte by byte
/// with the table `t`.
pub fn simple_update(crc: u64, t: &Table, p: &[u8]) -> (r: u64)
    ensures
        r == spec_update(t@, crc, p@),
{
    let mut crc: u64 = !crc;
    let ghost start = crc;
    let mut i: usize = 0;
    while i < p.len()
        invariant
            i <= p.len(),
            crc == fold(t@, start, p@.take(i as int)),
        decreases p.len() - i,
    {
        assert(p@.take(i + 1).drop_last() =~= p@.take(i as int));
        crc = t.0[((crc as u8) ^ p[i]) as usize] ^ (crc >> 8);
        i += 1;
    }
    assert(p@.take(p.len() as int) =~= p@);
    !crc
}

/// Returns the checksum `crc` continued by the bytes of `p`, with the table
/// `table`.
///
/// An input longer than [`BUILD_CUTOFF`] is taken eight bytes at a time,
/// with eight tables built for the call, where `table` is the table of a
/// polynomial. Every other input is taken byte by byte.
pub fn update(crc: u64, table: &Table, p: &[u8]) -> (r: u64)
    ensures
        r == spec_update(table@, crc, p@),
{
    if p.len() > BUILD_CUTOFF {
        let poly: u64 = table.0[128];
        if table.is_table_of(poly) {
            let helper = slicing8::make_table(*table);
            proof {
                lemmas::lemma_slicing_is_bytewise(poly, crc, p@);
            }
            return slicing8::update(crc, &helper, p);
        }
    }
    simple_update(crc, table, p)
}

} // verus!
