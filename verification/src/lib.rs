//! A DNS message codec and iterative resolver core.
//!
//! The wire codec converts between structured DNS values (header, names,
//! questions, resource records, messages) and the binary message format,
//! including name compression with backward-only pointers. The resolver
//! module drives iterative resolution as a pure state machine; the
//! surrounding process supplies transport.

use vstd::prelude::*;

pub mod common;
pub mod errors;
pub mod forwarder;
pub mod header;
pub mod labels;
pub mod message;
pub mod question;
pub mod record;

verus! {

/// Combines two bytes into a big-endian 16-bit value.
pub open spec fn spec_u16_of_bytes(hi: u8, lo: u8) -> u16 {
    (hi as u16 * 256 + lo as u16) as u16
}

/// Reads a big-endian 16-bit value from two bytes.
pub fn u16_of_bytes(hi: u8, lo: u8) -> (r: u16)
    ensures
        r == spec_u16_of_bytes(hi, lo),
{
    hi as u16 * 256 + lo as u16
}

/// The two big-endian bytes of a 16-bit value.
pub open spec fn spec_be16(x: u16) -> Seq<u8> {
    seq![(x / 256) as u8, (x % 256) as u8]
}

/// Combines four bytes into a big-endian 32-bit value.
pub open spec fn spec_u32_of_bytes(b0: u8, b1: u8, b2: u8, b3: u8) -> u32 {
    (b0 as u32 * 0x1000000 + b1 as u32 * 0x10000 + b2 as u32 * 0x100 + b3 as u32) as u32
}

/// Reads a big-endian 32-bit value from four bytes.
pub fn u32_of_bytes(b0: u8, b1: u8, b2: u8, b3: u8) -> (r: u32)
    ensures
        r == spec_u32_of_bytes(b0, b1, b2, b3),
{
    b0 as u32 * 0x1000000 + b1 as u32 * 0x10000 + b2 as u32 * 0x100 + b3 as u32
}

/// The four big-endian bytes of a 32-bit value.
pub open spec fn spec_be32(x: u32) -> Seq<u8> {
    seq![
        (x / 0x1000000) as u8,
        ((x / 0x10000) % 256) as u8,
        ((x / 256) % 256) as u8,
        (x % 256) as u8,
    ]
}

/// Combines sixteen bytes, starting at `pos`, into a big-endian
/// 128-bit value.
pub open spec fn spec_u128_at(b: Seq<u8>, pos: int) -> u128 {
    (b[pos] as u128 * 0x1000000000000000000000000000000 + b[pos + 1] as u128
        * 0x10000000000000000000000000000 + b[pos + 2] as u128 * 0x100000000000000000000000000
        + b[pos + 3] as u128 * 0x1000000000000000000000000 + b[pos + 4] as u128
        * 0x10000000000000000000000
        + b[pos + 5] as u128 * 0x100000000000000000000 + b[pos + 6] as u128 * 0x1000000000000000000 + b[pos + 7]
        as u128 * 0x10000000000000000 + b[pos + 8] as u128 * 0x100000000000000 + b[pos + 9] as u128
        * 0x1000000000000 + b[pos + 10] as u128 * 0x10000000000 + b[pos + 11] as u128 * 0x100000000
        + b[pos + 12] as u128 * 0x1000000 + b[pos + 13] as u128 * 0x10000 + b[pos + 14] as u128
        * 0x100 + b[pos + 15] as u128) as u128
}

/// The sixteen big-endian bytes of a 128-bit value.
pub open spec fn spec_be128(x: u128) -> Seq<u8> {
    seq![
        (x / 0x1000000000000000000000000000000) as u8,
        ((x / 0x10000000000000000000000000000) % 256) as u8,
        ((x / 0x100000000000000000000000000) % 256) as u8,
        ((x / 0x1000000000000000000000000) % 256) as u8,
        ((x / 0x10000000000000000000000) % 256) as u8,
        ((x / 0x100000000000000000000) % 256) as u8,
        ((x / 0x1000000000000000000) % 256) as u8,
        ((x / 0x10000000000000000) % 256) as u8,
        ((x / 0x100000000000000) % 256) as u8,
        ((x / 0x1000000000000) % 256) as u8,
        ((x / 0x10000000000) % 256) as u8,
        ((x / 0x100000000) % 256) as u8,
        ((x / 0x1000000) % 256) as u8,
        ((x / 0x10000) % 256) as u8,
        ((x / 0x100) % 256) as u8,
        (x % 256) as u8,
    ]
}

/// Reading back the sixteen big-endian bytes of a 128-bit value gives
/// the value.
pub proof fn lemma_be128_round_trip(x: u128)
    ensures
        ({
            let s = spec_be128(x);
            spec_u128_at(s, 0) == x
        }),
{
    let s = spec_be128(x);
    assert(spec_u128_at(s, 0) == ((x / 0x1000000000000000000000000000000) as u8 as u128
        * 0x1000000000000000000000000000000 + ((x / 0x10000000000000000000000000000) % 256) as u8
        as u128 * 0x10000000000000000000000000000 + ((x / 0x100000000000000000000000000) % 256)
        as u8 as u128 * 0x100000000000000000000000000 + ((x / 0x1000000000000000000000000) % 256)
        as u8 as u128 * 0x1000000000000000000000000 + ((x / 0x10000000000000000000000) % 256) as u8
        as u128 * 0x10000000000000000000000 + ((x / 0x100000000000000000000) % 256) as u8 as u128
        * 0x100000000000000000000 + ((x / 0x1000000000000000000) % 256) as u8 as u128
        * 0x1000000000000000000 + ((x / 0x10000000000000000) % 256) as u8 as u128
        * 0x10000000000000000 + ((x / 0x100000000000000) % 256) as u8 as u128 * 0x100000000000000
        + ((x / 0x1000000000000) % 256) as u8 as u128 * 0x1000000000000 + ((x / 0x10000000000)
        % 256) as u8 as u128 * 0x10000000000 + ((x / 0x100000000) % 256) as u8 as u128
        * 0x100000000 + ((x / 0x1000000) % 256) as u8 as u128 * 0x1000000 + ((x / 0x10000) % 256)
        as u8 as u128 * 0x10000 + ((x / 0x100) % 256) as u8 as u128 * 0x100 + (x % 256) as u8
        as u128) as u128);
    assert(((x / 0x1000000000000000000000000000000) as u8 as u128
        * 0x1000000000000000000000000000000 + ((x / 0x10000000000000000000000000000) % 256) as u8
        as u128 * 0x10000000000000000000000000000 + ((x / 0x100000000000000000000000000) % 256)
        as u8 as u128 * 0x100000000000000000000000000 + ((x / 0x1000000000000000000000000) % 256)
        as u8 as u128 * 0x1000000000000000000000000 + ((x / 0x10000000000000000000000) % 256) as u8
        as u128 * 0x10000000000000000000000 + ((x / 0x100000000000000000000) % 256) as u8 as u128
        * 0x100000000000000000000 + ((x / 0x1000000000000000000) % 256) as u8 as u128
        * 0x1000000000000000000 + ((x / 0x10000000000000000) % 256) as u8 as u128
        * 0x10000000000000000 + ((x / 0x100000000000000) % 256) as u8 as u128 * 0x100000000000000
        + ((x / 0x1000000000000) % 256) as u8 as u128 * 0x1000000000000 + ((x / 0x10000000000)
        % 256) as u8 as u128 * 0x10000000000 + ((x / 0x100000000) % 256) as u8 as u128
        * 0x100000000 + ((x / 0x1000000) % 256) as u8 as u128 * 0x1000000 + ((x / 0x10000) % 256)
        as u8 as u128 * 0x10000 + ((x / 0x100) % 256) as u8 as u128 * 0x100 + (x % 256) as u8
        as u128) as u128 == x) by (bit_vector);
}

/// Reading back the two big-endian bytes of a 16-bit value gives the
/// value.
pub proof fn lemma_be16_round_trip(x: u16)
    ensures
        spec_u16_of_bytes(spec_be16(x)[0], spec_be16(x)[1]) == x,
{
    assert(spec_u16_of_bytes((x / 256) as u8, (x % 256) as u8) == x) by (bit_vector);
}

/// Reading back the four big-endian bytes of a 32-bit value gives the
/// value.
pub proof fn lemma_be32_round_trip(x: u32)
    ensures
        spec_u32_of_bytes(
            spec_be32(x)[0],
            spec_be32(x)[1],
            spec_be32(x)[2],
            spec_be32(x)[3],
        ) == x,
{
    assert(spec_u32_of_bytes(
        (x / 0x1000000) as u8,
        ((x / 0x10000) % 256) as u8,
        ((x / 256) % 256) as u8,
        (x % 256) as u8,
    ) == x) by (bit_vector);
}

} // verus!
