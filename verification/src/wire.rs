//! Big-endian integers inside a byte buffer.

use byteorder::{ByteOrder, NetworkEndian};
use vstd::prelude::*;

verus! {

/// The 16-bit value written in network byte order as `hi`, `lo`.
pub open spec fn be_u16(hi: u8, lo: u8) -> u16 {
    (hi as int * 256 + lo as int) as u16
}

/// The 32-bit value written in network byte order as `b0`, `b1`, `b2`, `b3`.
pub open spec fn be_u32(b0: u8, b1: u8, b2: u8, b3: u8) -> u32 {
    (b0 as int * 16777216 + b1 as int * 65536 + b2 as int * 256 + b3 as int) as u32
}

/// First byte of `value` in network byte order.
pub open spec fn hi_byte(value: u16) -> u8 {
    (value as int / 256) as u8
}

/// Second byte of `value` in network byte order.
pub open spec fn lo_byte(value: u16) -> u8 {
    (value as int % 256) as u8
}

/// The 16-bit value stored at `at` and `at + 1`.
pub open spec fn u16_at(bytes: Seq<u8>, at: int) -> u16
    recommends
        0 <= at,
        at + 2 <= bytes.len(),
{
    be_u16(bytes[at], bytes[at + 1])
}

/// The 32-bit value stored at `at` .. `at + 3`.
pub open spec fn u32_at(bytes: Seq<u8>, at: int) -> u32
    recommends
        0 <= at,
        at + 4 <= bytes.len(),
{
    be_u32(bytes[at], bytes[at + 1], bytes[at + 2], bytes[at + 3])
}

/// The two bytes of `value` in network byte order.
pub open spec fn u16_bytes(value: u16) -> Seq<u8> {
    seq![hi_byte(value), lo_byte(value)]
}

/// `bytes` with the 16-bit `value` stored at `at` and `at + 1`.
pub open spec fn with_u16_at(bytes: Seq<u8>, at: int, value: u16) -> Seq<u8>
    recommends
        0 <= at,
        at + 2 <= bytes.len(),
{
    bytes.update(at, hi_byte(value)).update(at + 1, lo_byte(value))
}

/// Reading back what was stored gives the stored value, and a store leaves
/// the value of every two-byte slot that it does not overlap alone.
pub proof fn lemma_u16_store_load(bytes: Seq<u8>, at: int, value: u16, other: int)
    requires
        0 <= at,
        at + 2 <= bytes.len(),
        0 <= other,
        other + 2 <= bytes.len(),
    ensures
        with_u16_at(bytes, at, value).len() == bytes.len(),
        u16_at(with_u16_at(bytes, at, value), at) == value,
        other + 2 <= at || at + 2 <= other ==> u16_at(with_u16_at(bytes, at, value), other)
            == u16_at(bytes, other),
{
}

/// Calls `byteorder::ByteOrder::read_u16` of `NetworkEndian` on the bytes
/// from `at` on. The contract claims that it combines the first two of them
/// as a big-endian number; the call is kept away from slices shorter than
/// two bytes, on which it panics.
#[verifier::external_body]
pub(crate) fn read_u16(buf: &[u8], at: usize) -> (value: u16)
    requires
        at + 2 <= buf@.len(),
    ensures
        value == u16_at(buf@, at as int),
{
    NetworkEndian::read_u16(&buf[at..])
}

/// Calls `byteorder::ByteOrder::read_u32` of `NetworkEndian` on the bytes
/// from `at` on. The contract claims that it combines the first four of them
/// as a big-endian number; the call is kept away from slices shorter than
/// four bytes, on which it panics.
#[verifier::external_body]
pub(crate) fn read_u32(buf: &[u8], at: usize) -> (value: u32)
    requires
        at + 4 <= buf@.len(),
    ensures
        value == u32_at(buf@, at as int),
{
    NetworkEndian::read_u32(&buf[at..])
}

/// Calls `byteorder::ByteOrder::write_u16` of `NetworkEndian` on the bytes
/// from `at` on. The contract claims that it overwrites the first two of
/// them with the big-endian form of `value` and touches nothing else; the
/// call is kept away from slices shorter than two bytes, on which it panics.
#[verifier::external_body]
pub(crate) fn write_u16(buf: &mut Vec<u8>, at: usize, value: u16)
    requires
        at + 2 <= old(buf)@.len(),
    ensures
        final(buf)@ == with_u16_at(old(buf)@, at as int, value),
    no_unwind
{
    NetworkEndian::write_u16(&mut buf[at..], value)
}

} // verus!
