//! The 32-bit cyclic redundancy check, CRC-32.
//!
//! Polynomials are written least significant bit first, the reversed
//! representation. A [`Table`] holds, for each byte, what eight steps of the
//! division leave of it; the byte-wise update of [`simple`] walks the input
//! with one such table and says what a checksum is. The update of
//! [`slicing8`] takes eight bytes at a time with eight tables and gives the
//! same checksums.
use vstd::prelude::*;

use crate::crc32::digest::Digest;
use crate::crc32::slicing8::{slicing_make_table, slicing_update};

pub mod digest;
pub mod lemmas;
pub mod simple;
pub mod slicing8;

verus! {

/// Castagnoli's polynomial, used in iSCSI.
pub const CASTAGNOLI: u32 = 0x82f63b78;

/// The IEEE polynomial, by far the most common: Ethernet, gzip, zip, png.
pub const IEEE: u32 = 0xedb88320;

/// Koopman's polynomial.
pub const KOOPMAN: u32 = 0xeb31d82e;

/// The size of a CRC-32 checksum in bytes.
pub const SIZE: usize = 4;

/// The length above which an update that holds no tables for eight bytes at
/// a time builds them for itself. The checksum does not depend on it.
pub const BUILD_CUTOFF: usize = 16384;

/// One step of the division by `poly`: the register moves one bit to the
/// right, and the polynomial is added where a one fell out.
pub open spec fn bit_step(poly: u32, c: u32) -> u32 {
    if c & 1 == 1 {
        (c >> 1) ^ poly
    } else {
        c >> 1
    }
}

/// `n` steps of the division.
pub open spec fn bit_steps(poly: u32, c: u32, n: nat) -> u32
    decreases n,
{
    if n == 0 {
        c
    } else {
        bit_step(poly, bit_steps(poly, c, (n - 1) as nat))
    }
}

/// The table of `poly`: entry `i` is what eight steps leave of the byte `i`.
pub open spec fn spec_table(poly: u32) -> Seq<u32> {
    Seq::new(256, |i: int| bit_steps(poly, i as u32, 8))
}

/// The register after one byte.
pub open spec fn byte_step(t: Seq<u32>, c: u32, b: u8) -> u32 {
    t[((c as u8) ^ b) as int] ^ (c >> 8)
}

/// The register after `bytes`, one byte after the other.
pub open spec fn fold(t: Seq<u32>, c: u32, bytes: Seq<u8>) -> u32
    decreases bytes.len(),
{
    if bytes.len() == 0 {
        c
    } else {
        byte_step(t, fold(t, c, bytes.drop_last()), bytes.last())
    }
}

/// The checksum `crc` continued by `bytes`, with the table `t`: the register
/// is the complement of the checksum.
pub open spec fn spec_update(t: Seq<u32>, crc: u32, bytes: Seq<u8>) -> u32 {
    !fold(t, !crc, bytes)
}

/// The checksum of `bytes` with the table `t`.
pub open spec fn spec_checksum(t: Seq<u32>, bytes: Seq<u8>) -> u32 {
    spec_update(t, 0, bytes)
}

/// A table of 256 words that stands for a polynomial. Its view is the
/// sequence of its words.
#[derive(Clone, Copy, Debug, PartialEq, Eq)]
pub struct Table(pub [u32; 256]);

impl View for Table {
    type V = Seq<u32>;

    open spec fn view(&self) -> Seq<u32> {
        self.0@
    }
}

impl Default for Table {
    /// The table of zeros, which is the table of the polynomial zero.
    fn default() -> (t: Table)
        ensures
            t@ == Seq::new(256, |i: int| 0u32),
    {
        let t = Table([0u32; 256]);
        assert(t@ =~= Seq::new(256, |i: int| 0u32));
        t
    }
}

impl Table {
    /// Tells whether the two tables hold the same words.
    pub fn same(&self, other: &Table) -> (r: bool)
        ensures
            r == (self@ == other@),
    {
        let mut i: usize = 0;
        while i < 256
            invariant
                i <= 256,
                forall|k: int| 0 <= k < i ==> self@[k] == other@[k],
            decreases 256 - i,
        {
            if self.0[i] != other.0[i] {
                return false;
            }
            i += 1;
        }
        assert(self@ =~= other@);
        true
    }

    /// Tells whether this is the table of `poly`.
    pub fn is_table_of(&self, poly: u32) -> (r: bool)
        ensures
            r == (self@ == spec_table(poly)),
    {
        let t = simple::make_table(poly);
        self.same(&t)
    }
}

/// Returns the CRC-32 checksum of `data` with the polynomial that `table` stands for.
pub fn checksum(data: &[u8], table: &Table) -> (r: u32)
    ensures
        r == spec_checksum(table@, data@),
{
    update(0, table, data)
}

/// Returns the CRC-32 checksum of `data` with the IEEE polynomial.
pub fn checksum_ieee(data: &[u8]) -> (r: u32)
    ensures
        r == spec_checksum(spec_table(IEEE), data@),
{
    update_ieee(0, data)
}

/// Returns the table of `poly`.
pub fn make_table(poly: u32) -> (t: Table)
    ensures
        t@ == spec_table(poly),
{
    simple::make_table(poly)
}

/// Returns a new engine that computes the CRC-32 checksum with the
/// polynomial that `t` stands for. Its `sum` gives the checksum most
/// significant byte first.
pub fn new(t: Table) -> (d: Digest)
    ensures
        d@ == (digest::Model { table: t@, crc: 0 }),
{
    Digest::new(0, t)
}

/// Returns a new engine that computes the CRC-32 checksum with the IEEE
/// polynomial.
pub fn new_ieee() -> (d: Digest)
    ensures
        d@ == (digest::Model { table: spec_table(IEEE), crc: 0 }),
{
    new(simple::make_table(IEEE))
}

/// Returns the checksum `crc` continued by the bytes of `p`, with the table `t`.
///
/// An input longer than [`BUILD_CUTOFF`] is taken eight bytes at a time
/// where `t` is the table of the Castagnoli or of the IEEE polynomial.
pub fn update(crc: u32, t: &Table, p: &[u8]) -> (r: u32)
    ensures
        r == spec_update(t@, crc, p@),
{
    if p.len() > BUILD_CUTOFF {
        if t.is_table_of(CASTAGNOLI) {
            return update_castagnoli(crc, p);
        } else if t.is_table_of(IEEE) {
            return update_ieee(crc, p);
        }
    }
    simple::update(crc, t, p)
}

/// Returns the checksum `crc` continued by the bytes of `p`, with the
/// polynomial `poly`: eight bytes at a time above [`BUILD_CUTOFF`], byte by
/// byte below.
fn update_with(crc: u32, poly: u32, p: &[u8]) -> (r: u32)
    ensures
        r == spec_update(spec_table(poly), crc, p@),
{
    if p.len() > BUILD_CUTOFF {
        let t = slicing_make_table(poly);
        proof {
            lemmas::lemma_slicing_is_bytewise(poly, crc, p@);
        }
        slicing_update(crc, &t, p)
    } else {
        let t = simple::make_table(poly);
        simple::update(crc, &t, p)
    }
}

/// Returns the checksum `crc` continued by the bytes of `p`, with the
/// Castagnoli polynomial.
pub fn update_castagnoli(crc: u32, p: &[u8]) -> (r: u32)
    ensures
        r == spec_update(spec_table(CASTAGNOLI), crc, p@),
{
    update_with(crc, CASTAGNOLI, p)
}

/// Returns the checksum `crc` continued by the bytes of `p`, with the IEEE
/// polynomial.
pub fn update_ieee(crc: u32, p: &[u8]) -> (r: u32)
    ensures
        r == spec_update(spec_table(IEEE), crc, p@),
{
    update_with(crc, IEEE, p)
}

} // verus!
