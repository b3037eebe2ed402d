use byteorder::{ByteOrder, LittleEndian};
use vstd::prelude::*;

verus! {

/// The number that bytes spell in little-endian order: the first byte is the
/// least significant.
pub open spec fn little_endian(bytes: Seq<u8>) -> nat
    decreases bytes.len(),
{
    if bytes.len() == 0 {
        0
    } else {
        bytes[0] as nat + 256 * little_endian(bytes.skip(1))
    }
}

/// The signed number that the low `bits` bits of `n` spell in two's complement.
pub open spec fn twos_complement(n: nat, bits: nat) -> int {
    if n < vstd::arithmetic::power2::pow2((bits - 1) as nat) {
        n as int
    } else {
        n - vstd::arithmetic::power2::pow2(bits)
    }
}

/// The first four bytes as an unsigned 32-bit number in little-endian order.
pub open spec fn le_u32(bytes: Seq<u8>) -> nat {
    little_endian(bytes.take(4))
}

/// The first four bytes as a signed 32-bit number in little-endian order.
pub open spec fn le_i32(bytes: Seq<u8>) -> int {
    twos_complement(le_u32(bytes), 32)
}

/// The first eight bytes as an unsigned 64-bit number in little-endian order.
pub open spec fn le_u64(bytes: Seq<u8>) -> nat {
    little_endian(bytes.take(8))
}

/// The first eight bytes as a signed 64-bit number in little-endian order.
pub open spec fn le_i64(bytes: Seq<u8>) -> int {
    twos_complement(le_u64(bytes), 64)
}

/// Reads the first four bytes of `buffer` as an unsigned number.
///
/// Trusted: this is `byteorder::LittleEndian::read_u32`, which returns
/// `u32::from_le_bytes` of the first four bytes and panics on a shorter buffer.
#[verifier::external_body]
pub(crate) fn read_u32(buffer: &[u8]) -> (r: u32)
    requires
        buffer@.len() >= 4,
    ensures
        r == le_u32(buffer@),
{
    LittleEndian::read_u32(buffer)
}

/// Reads the first four bytes of `buffer` as a signed number.
///
/// Trusted: this is `byteorder::LittleEndian::read_i32`, which returns what
/// `read_u32` returns, cast to `i32`, and panics on a shorter buffer.
#[verifier::external_body]
pub(crate) fn read_i32(buffer: &[u8]) -> (r: i32)
    requires
        buffer@.len() >= 4,
    ensures
        r == le_i32(buffer@),
{
    LittleEndian::read_i32(buffer)
}

/// Reads the first eight bytes of `buffer` as an unsigned number.
///
/// Trusted: this is `byteorder::LittleEndian::read_u64`, which returns
/// `u64::from_le_bytes` of the first eight bytes and panics on a shorter
/// buffer.
#[verifier::external_body]
pub(crate) fn read_u64(buffer: &[u8]) -> (r: u64)
    requires
        buffer@.len() >= 8,
    ensures
        r == le_u64(buffer@),
{
    LittleEndian::read_u64(buffer)
}

/// Reads the first eight bytes of `buffer` as a signed number.
///
/// Trusted: this is `byteorder::LittleEndian::read_i64`, which returns what
/// `read_u64` returns, cast to `i64`, and panics on a shorter buffer.
#[verifier::external_body]
pub(crate) fn read_i64(buffer: &[u8]) -> (r: i64)
    requires
        buffer@.len() >= 8,
    ensures
        r == le_i64(buffer@),
{
    LittleEndian::read_i64(buffer)
}

} // verus!
