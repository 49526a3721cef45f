//! The fixed header: its fields as plain values and the packed flags word.

use crate::consts::{
    AA, ANCOUNT_OFFSET, ARCOUNT_OFFSET, FLAGS_OFFSET, HEADER_LENGTH, ID_OFFSET, NSCOUNT_OFFSET,
    OPCODE_MASK, OPCODE_SHIFT, QDCOUNT_OFFSET, QR, RA, RCODE_MASK, RD, TC, Z_MASK, Z_SHIFT,
};
use crate::wire::{lemma_u16_store_load, u16_at, with_u16_at};
use vstd::prelude::*;

verus! {

/// The fields of the fixed header.
#[derive(Clone, Copy, Debug, PartialEq, Eq, Structural)]
pub struct Header {
    /// Transaction identifier.
    pub id: u16,
    /// Direction: `true` for a query (QR clear), `false` for a response.
    pub is_query: bool,
    /// Kind of query, four bits.
    pub opcode: u8,
    pub authoritative: bool,
    pub truncated: bool,
    pub recursion_desired: bool,
    pub recursion_available: bool,
    /// The three reserved bits.
    pub z: u8,
    /// Response code, four bits.
    pub rcode: u8,
    pub qdcount: u16,
    pub ancount: u16,
    pub nscount: u16,
    pub arcount: u16,
}

/// Whether the single bit `mask` is set in `flags`.
pub open spec fn flag_is_set(flags: u16, mask: u16) -> bool {
    flags & mask == mask
}

/// `flags` with the single bit `mask` set or cleared.
pub open spec fn with_flag(flags: u16, mask: u16, on: bool) -> u16 {
    if on {
        flags | mask
    } else {
        flags & !mask
    }
}

pub open spec fn opcode_of(flags: u16) -> u8 {
    ((flags & OPCODE_MASK) >> OPCODE_SHIFT) as u8
}

/// `flags` with the low four bits of `opcode` in the opcode field.
pub open spec fn with_opcode(flags: u16, opcode: u8) -> u16 {
    (flags & !OPCODE_MASK) | (((opcode as u16) << OPCODE_SHIFT) & OPCODE_MASK)
}

pub open spec fn z_of(flags: u16) -> u8 {
    ((flags & Z_MASK) >> Z_SHIFT) as u8
}

pub open spec fn rcode_of(flags: u16) -> u8 {
    (flags & RCODE_MASK) as u8
}

/// `flags` with the low four bits of `rcode` in the response-code field.
pub open spec fn with_rcode(flags: u16, rcode: u8) -> u16 {
    (flags & !RCODE_MASK) | ((rcode as u16) & RCODE_MASK)
}

/// Whether `mask` is one of the five one-bit fields of the flags word.
pub open spec fn is_flag_bit(mask: u16) -> bool {
    mask == QR || mask == AA || mask == TC || mask == RD || mask == RA
}

/// Setting or clearing one flag bit gives that bit the wanted value and
/// leaves every other bit field of the flags word as it was.
pub proof fn lemma_with_flag_isolated(flags: u16, mask: u16, on: bool)
    by (bit_vector)
    requires
        is_flag_bit(mask),
    ensures
        flag_is_set(with_flag(flags, mask, on), mask) == on,
        mask != QR ==> flag_is_set(with_flag(flags, mask, on), QR) == flag_is_set(flags, QR),
        mask != AA ==> flag_is_set(with_flag(flags, mask, on), AA) == flag_is_set(flags, AA),
        mask != TC ==> flag_is_set(with_flag(flags, mask, on), TC) == flag_is_set(flags, TC),
        mask != RD ==> flag_is_set(with_flag(flags, mask, on), RD) == flag_is_set(flags, RD),
        mask != RA ==> flag_is_set(with_flag(flags, mask, on), RA) == flag_is_set(flags, RA),
        opcode_of(with_flag(flags, mask, on)) == opcode_of(flags),
        z_of(with_flag(flags, mask, on)) == z_of(flags),
        rcode_of(with_flag(flags, mask, on)) == rcode_of(flags),
{
}

/// Storing an opcode keeps its low four bits and leaves every other bit
/// field of the flags word as it was.
pub proof fn lemma_with_opcode_isolated(flags: u16, opcode: u8)
    by (bit_vector)
    ensures
        opcode_of(with_opcode(flags, opcode)) == opcode & 0x0F,
        opcode < 16 ==> opcode_of(with_opcode(flags, opcode)) == opcode,
        flag_is_set(with_opcode(flags, opcode), QR) == flag_is_set(flags, QR),
        flag_is_set(with_opcode(flags, opcode), AA) == flag_is_set(flags, AA),
        flag_is_set(with_opcode(flags, opcode), TC) == flag_is_set(flags, TC),
        flag_is_set(with_opcode(flags, opcode), RD) == flag_is_set(flags, RD),
        flag_is_set(with_opcode(flags, opcode), RA) == flag_is_set(flags, RA),
        z_of(with_opcode(flags, opcode)) == z_of(flags),
        rcode_of(with_opcode(flags, opcode)) == rcode_of(flags),
{
}

/// Storing a response code keeps its low four bits and leaves every other
/// bit field of the flags word as it was.
pub proof fn lemma_with_rcode_isolated(flags: u16, rcode: u8)
    by (bit_vector)
    ensures
        rcode_of(with_rcode(flags, rcode)) == rcode & 0x0F,
        rcode < 16 ==> rcode_of(with_rcode(flags, rcode)) == rcode,
        flag_is_set(with_rcode(flags, rcode), QR) == flag_is_set(flags, QR),
        flag_is_set(with_rcode(flags, rcode), AA) == flag_is_set(flags, AA),
        flag_is_set(with_rcode(flags, rcode), TC) == flag_is_set(flags, TC),
        flag_is_set(with_rcode(flags, rcode), RD) == flag_is_set(flags, RD),
        flag_is_set(with_rcode(flags, rcode), RA) == flag_is_set(flags, RA),
        opcode_of(with_rcode(flags, rcode)) == opcode_of(flags),
        z_of(with_rcode(flags, rcode)) == z_of(flags),
{
}

/// The header that the first twelve bytes of `bytes` spell out.
pub open spec fn header_of(bytes: Seq<u8>) -> Header
    recommends
        bytes.len() >= HEADER_LENGTH,
{
    let flags = u16_at(bytes, FLAGS_OFFSET as int);
    Header {
        id: u16_at(bytes, ID_OFFSET as int),
        is_query: !flag_is_set(flags, QR),
        opcode: opcode_of(flags),
        authoritative: flag_is_set(flags, AA),
        truncated: flag_is_set(flags, TC),
        recursion_desired: flag_is_set(flags, RD),
        recursion_available: flag_is_set(flags, RA),
        z: z_of(flags),
        rcode: rcode_of(flags),
        qdcount: u16_at(bytes, QDCOUNT_OFFSET as int),
        ancount: u16_at(bytes, ANCOUNT_OFFSET as int),
        nscount: u16_at(bytes, NSCOUNT_OFFSET as int),
        arcount: u16_at(bytes, ARCOUNT_OFFSET as int),
    }
}

/// A store into one two-byte slot of the header changes the field kept in
/// that slot and no other.
pub proof fn lemma_header_slot_store(bytes: Seq<u8>, at: int, value: u16)
    requires
        bytes.len() >= HEADER_LENGTH,
        at == ID_OFFSET || at == FLAGS_OFFSET || at == QDCOUNT_OFFSET || at == ANCOUNT_OFFSET || at
            == NSCOUNT_OFFSET || at == ARCOUNT_OFFSET,
    ensures
        with_u16_at(bytes, at, value).len() == bytes.len(),
        with_u16_at(bytes, at, value).skip(HEADER_LENGTH as int) == bytes.skip(
            HEADER_LENGTH as int,
        ),
        u16_at(with_u16_at(bytes, at, value), at) == value,
        at != ID_OFFSET ==> header_of(with_u16_at(bytes, at, value)).id == header_of(bytes).id,
        at != FLAGS_OFFSET ==> u16_at(with_u16_at(bytes, at, value), FLAGS_OFFSET as int)
            == u16_at(bytes, FLAGS_OFFSET as int),
        at != QDCOUNT_OFFSET ==> header_of(with_u16_at(bytes, at, value)).qdcount == header_of(
            bytes,
        ).qdcount,
        at != ANCOUNT_OFFSET ==> header_of(with_u16_at(bytes, at, value)).ancount == header_of(
            bytes,
        ).ancount,
        at != NSCOUNT_OFFSET ==> header_of(with_u16_at(bytes, at, value)).nscount == header_of(
            bytes,
        ).nscount,
        at != ARCOUNT_OFFSET ==> header_of(with_u16_at(bytes, at, value)).arcount == header_of(
            bytes,
        ).arcount,
{
    lemma_u16_store_load(bytes, at, value, ID_OFFSET as int);
    lemma_u16_store_load(bytes, at, value, FLAGS_OFFSET as int);
    lemma_u16_store_load(bytes, at, value, QDCOUNT_OFFSET as int);
    lemma_u16_store_load(bytes, at, value, ANCOUNT_OFFSET as int);
    lemma_u16_store_load(bytes, at, value, NSCOUNT_OFFSET as int);
    lemma_u16_store_load(bytes, at, value, ARCOUNT_OFFSET as int);
}

/// Storing one field of the header leaves every other field as it was,
/// and with them every byte behind the header: whichever field is written,
/// the header afterwards is the header before with that one field replaced.
/// An opcode or a response code is stored with its low four bits.
pub proof fn lemma_header_fields_independent(
    bytes: Seq<u8>,
    value: u16,
    code: u8,
    on: bool,
)
    requires
        bytes.len() >= HEADER_LENGTH,
    ensures
        header_of(with_u16_at(bytes, ID_OFFSET as int, value)) == (Header {
            id: value,
            ..header_of(bytes)
        }),
        header_of(with_u16_at(bytes, QDCOUNT_OFFSET as int, value)) == (Header {
            qdcount: value,
            ..header_of(bytes)
        }),
        header_of(with_u16_at(bytes, ANCOUNT_OFFSET as int, value)) == (Header {
            ancount: value,
            ..header_of(bytes)
        }),
        header_of(with_u16_at(bytes, NSCOUNT_OFFSET as int, value)) == (Header {
            nscount: value,
            ..header_of(bytes)
        }),
        header_of(with_u16_at(bytes, ARCOUNT_OFFSET as int, value)) == (Header {
            arcount: value,
            ..header_of(bytes)
        }),
        header_of(
            with_u16_at(
                bytes,
                FLAGS_OFFSET as int,
                with_flag(u16_at(bytes, FLAGS_OFFSET as int), QR, on),
            ),
        ) == (Header { is_query: !on, ..header_of(bytes) }),
        header_of(
            with_u16_at(
                bytes,
                FLAGS_OFFSET as int,
                with_flag(u16_at(bytes, FLAGS_OFFSET as int), AA, on),
            ),
        ) == (Header { authoritative: on, ..header_of(bytes) }),
        header_of(
            with_u16_at(
                bytes,
                FLAGS_OFFSET as int,
                with_flag(u16_at(bytes, FLAGS_OFFSET as int), TC, on),
            ),
        ) == (Header { truncated: on, ..header_of(bytes) }),
        header_of(
            with_u16_at(
                bytes,
                FLAGS_OFFSET as int,
                with_flag(u16_at(bytes, FLAGS_OFFSET as int), RD, on),
            ),
        ) == (Header { recursion_desired: on, ..header_of(bytes) }),
        header_of(
            with_u16_at(
                bytes,
                FLAGS_OFFSET as int,
                with_flag(u16_at(bytes, FLAGS_OFFSET as int), RA, on),
            ),
        ) == (Header { recursion_available: on, ..header_of(bytes) }),
        header_of(
            with_u16_at(
                bytes,
                FLAGS_OFFSET as int,
                with_opcode(u16_at(bytes, FLAGS_OFFSET as int), code),
            ),
        ) == (Header { opcode: code & 0x0F, ..header_of(bytes) }),
        header_of(
            with_u16_at(
                bytes,
                FLAGS_OFFSET as int,
                with_rcode(u16_at(bytes, FLAGS_OFFSET as int), code),
            ),
        ) == (Header { rcode: code & 0x0F, ..header_of(bytes) }),
        forall|at: int, stored: u16|
            (at == ID_OFFSET || at == FLAGS_OFFSET || at == QDCOUNT_OFFSET || at == ANCOUNT_OFFSET
                || at == NSCOUNT_OFFSET || at == ARCOUNT_OFFSET) ==> (#[trigger] with_u16_at(
                bytes,
                at,
                stored,
            )).skip(HEADER_LENGTH as int) == bytes.skip(HEADER_LENGTH as int),
{
    let flags = u16_at(bytes, FLAGS_OFFSET as int);
    lemma_header_slot_store(bytes, ID_OFFSET as int, value);
    lemma_header_slot_store(bytes, QDCOUNT_OFFSET as int, value);
    lemma_header_slot_store(bytes, ANCOUNT_OFFSET as int, value);
    lemma_header_slot_store(bytes, NSCOUNT_OFFSET as int, value);
    lemma_header_slot_store(bytes, ARCOUNT_OFFSET as int, value);
    lemma_with_flag_isolated(flags, QR, on);
    lemma_header_slot_store(bytes, FLAGS_OFFSET as int, with_flag(flags, QR, on));
    lemma_with_flag_isolated(flags, AA, on);
    lemma_header_slot_store(bytes, FLAGS_OFFSET as int, with_flag(flags, AA, on));
    lemma_with_flag_isolated(flags, TC, on);
    lemma_header_slot_store(bytes, FLAGS_OFFSET as int, with_flag(flags, TC, on));
    lemma_with_flag_isolated(flags, RD, on);
    lemma_header_slot_store(bytes, FLAGS_OFFSET as int, with_flag(flags, RD, on));
    lemma_with_flag_isolated(flags, RA, on);
    lemma_header_slot_store(bytes, FLAGS_OFFSET as int, with_flag(flags, RA, on));
    lemma_with_opcode_isolated(flags, code);
    lemma_header_slot_store(bytes, FLAGS_OFFSET as int, with_opcode(flags, code));
    lemma_with_rcode_isolated(flags, code);
    lemma_header_slot_store(bytes, FLAGS_OFFSET as int, with_rcode(flags, code));
    assert forall|at: int, stored: u16|
        (at == ID_OFFSET || at == FLAGS_OFFSET || at == QDCOUNT_OFFSET || at == ANCOUNT_OFFSET
            || at == NSCOUNT_OFFSET || at == ARCOUNT_OFFSET) implies (#[trigger] with_u16_at(
        bytes,
        at,
        stored,
    )).skip(HEADER_LENGTH as int) == bytes.skip(HEADER_LENGTH as int) by {
        lemma_header_slot_store(bytes, at, stored);
    }
}

} // verus!
