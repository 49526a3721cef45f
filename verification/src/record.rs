//! One entry of the answer, authority or additional section.

use crate::error::CodecError;
use crate::name::{decode_name, decode_name_spec};
use crate::wire::{read_u16, read_u32, u16_at, u32_at};
use vstd::prelude::*;
use vstd::slice::{slice_subrange, slice_to_vec};

verus! {

/// Number of bytes between the name of a record and its data: type, class,
/// time to live and data length.
pub const RECORD_FIXED_LENGTH: usize = 10;

/// A resource record: the name it belongs to, in text form, its type,
/// class and time to live, and its data as the bytes found on the wire.
#[derive(Clone, Debug, PartialEq, Eq)]
pub struct ResourceRecord {
    pub name: Vec<u8>,
    pub rtype: u16,
    pub rclass: u16,
    pub ttl: u32,
    pub rdlength: u16,
    pub rdata: Vec<u8>,
}

/// A resource record as plain mathematical values.
pub struct RecordView {
    pub name: Seq<u8>,
    pub rtype: u16,
    pub rclass: u16,
    pub ttl: u32,
    pub rdlength: u16,
    pub rdata: Seq<u8>,
}

impl View for ResourceRecord {
    type V = RecordView;

    open spec fn view(&self) -> RecordView {
        RecordView {
            name: self.name@,
            rtype: self.rtype,
            rclass: self.rclass,
            ttl: self.ttl,
            rdlength: self.rdlength,
            rdata: self.rdata@,
        }
    }
}

/// What reading the record at `pos` gives: the record and the offset
/// behind its data. The name fails as names do; the fixed fields and the
/// data fail with `TruncatedMessage` when they do not all lie in the
/// buffer. The data are exactly as many bytes as the length field says.
pub open spec fn read_record(buf: Seq<u8>, pos: int) -> Result<(RecordView, int), CodecError> {
    match decode_name_spec(buf, pos) {
        Ok((name, end)) => if end + RECORD_FIXED_LENGTH > buf.len() {
            Err(CodecError::TruncatedMessage)
        } else {
            let rdlength = u16_at(buf, end + 8);
            let data_at = end + RECORD_FIXED_LENGTH;
            if data_at + rdlength > buf.len() {
                Err(CodecError::TruncatedMessage)
            } else {
                Ok(
                    (
                        RecordView {
                            name,
                            rtype: u16_at(buf, end),
                            rclass: u16_at(buf, end + 2),
                            ttl: u32_at(buf, end + 4),
                            rdlength,
                            rdata: buf.subrange(data_at, data_at + rdlength),
                        },
                        data_at + rdlength,
                    ),
                )
            }
        },
        Err(e) => Err(e),
    }
}

impl ResourceRecord {
    /// Reads the record that starts at `pos` and returns it with the
    /// offset behind its data.
    ///
    /// Fails as `decode_name` does on its name, and with `TruncatedMessage`
    /// when the ten bytes of the fixed fields, or as many data bytes as the
    /// length field says, are not all in the buffer.
    pub fn decode(buf: &[u8], pos: usize) -> (result: Result<(ResourceRecord, usize), CodecError>)
        ensures
            match read_record(buf@, pos as int) {
                Ok((record, next)) => result is Ok && result->Ok_0.0@ == record
                    && result->Ok_0.1 == next && pos < next <= buf@.len(),
                Err(e) => result is Err && result->Err_0 == e,
            },
    {
        match decode_name(buf, pos) {
            Ok((name, end)) => {
                if buf.len() - end < RECORD_FIXED_LENGTH {
                    return Err(CodecError::TruncatedMessage);
                }
                let rtype: u16 = read_u16(buf, end);
                let rclass: u16 = read_u16(buf, end + 2);
                let ttl: u32 = read_u32(buf, end + 4);
                let rdlength: u16 = read_u16(buf, end + 8);
                let data_at: usize = end + RECORD_FIXED_LENGTH;
                if buf.len() - data_at < rdlength as usize {
                    return Err(CodecError::TruncatedMessage);
                }
                let next: usize = data_at + rdlength as usize;
                let rdata: Vec<u8> = slice_to_vec(slice_subrange(buf, data_at, next));
                Ok((ResourceRecord { name, rtype, rclass, ttl, rdlength, rdata }, next))
            },
            Err(e) => Err(e),
        }
    }
}

} // verus!
