//! Byte order of the numbers that the journal stores.

use vstd::prelude::*;

verus! {

/// The number that the bytes spell with the least significant byte first.
pub open spec fn le_value(bytes: Seq<u8>) -> nat
    decreases bytes.len(),
{
    if bytes.len() == 0 {
        0
    } else {
        bytes.first() as nat + 256 * le_value(bytes.drop_first())
    }
}

/// The number that the bytes spell with the most significant byte first.
pub open spec fn be_value(bytes: Seq<u8>) -> nat
    decreases bytes.len(),
{
    if bytes.len() == 0 {
        0
    } else {
        bytes.last() as nat + 256 * be_value(bytes.drop_last())
    }
}

/// The 128-bit two's complement number that sixteen bytes spell with the least significant byte
/// first.
pub open spec fn signed_le_value(bytes: Seq<u8>) -> int {
    if le_value(bytes) < 0x8000_0000_0000_0000_0000_0000_0000_0000 {
        le_value(bytes) as int
    } else {
        le_value(bytes) - 0x1_0000_0000_0000_0000_0000_0000_0000_0000
    }
}

/// Calls `zerocopy::byteorder::little_endian::U16::from`, which stores a number least significant
/// byte first, and hands out the two bytes stored.
#[verifier::external_body]
pub(crate) fn u16_to_le(value: u16) -> (bytes: [u8; 2])
    ensures
        le_value(bytes@) == value,
{
    zerocopy::byteorder::little_endian::U16::from(value).to_bytes()
}

/// Calls `zerocopy::byteorder::little_endian::U32::from`, which stores a number least significant
/// byte first, and hands out the four bytes stored.
#[verifier::external_body]
pub(crate) fn u32_to_le(value: u32) -> (bytes: [u8; 4])
    ensures
        le_value(bytes@) == value,
{
    zerocopy::byteorder::little_endian::U32::from(value).to_bytes()
}

/// Calls `zerocopy::byteorder::little_endian::U64::from`, which stores a number least significant
/// byte first, and hands out the eight bytes stored.
#[verifier::external_body]
pub(crate) fn u64_to_le(value: u64) -> (bytes: [u8; 8])
    ensures
        le_value(bytes@) == value,
{
    zerocopy::byteorder::little_endian::U64::from(value).to_bytes()
}

/// Calls `zerocopy::byteorder::little_endian::U128::from`, which stores a number least significant
/// byte first, and hands out the sixteen bytes stored.
#[verifier::external_body]
pub(crate) fn u128_to_le(value: u128) -> (bytes: [u8; 16])
    ensures
        le_value(bytes@) == value,
{
    zerocopy::byteorder::little_endian::U128::from(value).to_bytes()
}

/// Calls `zerocopy::byteorder::little_endian::I128::from`, which stores a number in two's
/// complement, least significant byte first, and hands out the sixteen bytes stored.
#[verifier::external_body]
pub(crate) fn i128_to_le(value: i128) -> (bytes: [u8; 16])
    ensures
        signed_le_value(bytes@) == value,
{
    zerocopy::byteorder::little_endian::I128::from(value).to_bytes()
}

/// Calls `zerocopy::byteorder::little_endian::I128::get` on sixteen stored bytes: the two's
/// complement number that they spell, least significant byte first.
#[verifier::external_body]
pub(crate) fn i128_from_le(bytes: [u8; 16]) -> (value: i128)
    ensures
        value == signed_le_value(bytes@),
{
    zerocopy::byteorder::little_endian::I128::from_bytes(bytes).get()
}

/// Calls `uuid::Uuid::into_bytes` on the identifier that `uuid::Uuid::from_u128` makes of the
/// value: its sixteen bytes, most significant first.
#[verifier::external_body]
pub(crate) fn uuid_into_bytes(key: u128) -> (bytes: [u8; 16])
    ensures
        be_value(bytes@) == key,
{
    uuid::Uuid::from_u128(key).into_bytes()
}

} // verus!
