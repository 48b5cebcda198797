//! Big-endian integers read out of byte buffers.
use vstd::prelude::*;
use byteorder::ByteOrder;

verus! {

/// The 16-bit big-endian value of two bytes.
pub open spec fn be16(hi: u8, lo: u8) -> nat {
    hi as nat * 256 + lo as nat
}

/// The 32-bit big-endian value of four bytes.
pub open spec fn be32(b0: u8, b1: u8, b2: u8, b3: u8) -> nat {
    ((b0 as nat * 256 + b1 as nat) * 256 + b2 as nat) * 256 + b3 as nat
}

/// Relies on byteorder::BigEndian::read_u16, which reads the first two bytes
/// of its argument most significant first (and panics on fewer than two).
#[verifier::external_body]
pub(crate) fn read_be_u16(buf: &[u8], at: usize) -> (r: u16)
    requires
        at + 2 <= buf@.len(),
    ensures
        r as nat == be16(buf@[at as int], buf@[at + 1]),
{
    byteorder::BigEndian::read_u16(&buf[at..])
}

/// Relies on byteorder::BigEndian::read_u32, which reads the first four bytes
/// of its argument most significant first (and panics on fewer than four).
#[verifier::external_body]
pub(crate) fn read_be_u32(buf: &[u8], at: usize) -> (r: u32)
    requires
        at + 4 <= buf@.len(),
    ensures
        r as nat == be32(buf@[at as int], buf@[at + 1], buf@[at + 2], buf@[at + 3]),
{
    byteorder::BigEndian::read_u32(&buf[at..])
}

} // verus!
