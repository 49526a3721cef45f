//! Fixed offsets and masks of the message header.

use vstd::prelude::*;

verus! {

/// Number of bytes in the fixed header at the start of every message.
pub const HEADER_LENGTH: usize = 12;

/// Conventional upper bound for a message carried by plain UDP.
pub const MAX_UDP_LENGTH: usize = 512;

pub const ID_OFFSET: usize = 0;

pub const FLAGS_OFFSET: usize = 2;

pub const QDCOUNT_OFFSET: usize = 4;

pub const ANCOUNT_OFFSET: usize = 6;

pub const NSCOUNT_OFFSET: usize = 8;

pub const ARCOUNT_OFFSET: usize = 10;

/// Direction bit of the flags word: clear for a query, set for a response.
pub const QR: u16 = 0x8000;

/// Authoritative-answer bit.
pub const AA: u16 = 0x0400;

/// Truncation bit.
pub const TC: u16 = 0x0200;

/// Recursion-desired bit.
pub const RD: u16 = 0x0100;

/// Recursion-available bit.
pub const RA: u16 = 0x0080;

pub const OPCODE_SHIFT: u8 = 11;

pub const OPCODE_MASK: u16 = 0x7800;

pub const Z_SHIFT: u8 = 4;

/// The three reserved bits between RA and RCODE.
pub const Z_MASK: u16 = 0x0070;

pub const RCODE_MASK: u16 = 0x000F;

/// Longest label that a name may carry.
pub const MAX_LABEL_LENGTH: usize = 63;

/// Longest wire form of a name: length bytes, label bytes and terminator.
pub const MAX_NAME_LENGTH: usize = 255;

/// Number of compression pointers that decoding one name may follow.
pub const MAX_JUMPS: usize = 128;

/// Smallest first byte of a compression pointer.
pub const POINTER_TAG: u8 = 0xC0;

/// Query type of a host address record.
pub const TYPE_A: u16 = 1;

/// Query class of the Internet.
pub const CLASS_IN: u16 = 1;

} // verus!
