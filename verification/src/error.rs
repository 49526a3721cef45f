//! The ways in which encoding or decoding can fail.

use vstd::prelude::*;

verus! {

/// A failure of the codec. The first two arise when a name is encoded, the
/// others when wire bytes are decoded.
#[derive(Clone, Copy, Debug, PartialEq, Eq, Structural)]
pub enum CodecError {
    /// A label of the name has more than 63 bytes.
    LabelTooLong,
    /// The wire form of the name would have more than 255 bytes.
    NameTooLong,
    /// A length byte is above 63 and is not the start of a pointer.
    InvalidLabelLength,
    /// Decoding a name met more compression pointers than it may follow.
    CompressionLoop,
    /// A name runs past the end of the buffer.
    UnexpectedEndOfBuffer,
    /// The buffer is shorter than the fixed header.
    TruncatedHeader,
    /// A fixed-width field or a record's data runs past the end of the buffer.
    TruncatedMessage,
}

} // verus!
