//! One entry of the question section.

use crate::consts::{CLASS_IN, TYPE_A};
use crate::error::CodecError;
use crate::name::{decode_name, decode_name_spec, encode_name_spec, name_to_wire};
use crate::wire::{read_u16, u16_at, u16_bytes, write_u16};
use vstd::prelude::*;
use vstd::slice::slice_to_vec;
use vstd::string::StringSliceAdditionalSpecFns;

verus! {

/// A question: the name asked about, in text form, with the type and class
/// of the records wanted.
#[derive(Clone, Debug, PartialEq, Eq)]
pub struct Question {
    pub name: Vec<u8>,
    pub qtype: u16,
    pub qclass: u16,
}

/// A question as plain mathematical values.
pub struct QuestionView {
    pub name: Seq<u8>,
    pub qtype: u16,
    pub qclass: u16,
}

impl View for Question {
    type V = QuestionView;

    open spec fn view(&self) -> QuestionView {
        QuestionView { name: self.name@, qtype: self.qtype, qclass: self.qclass }
    }
}

/// What encoding a question gives: the wire form of its name, then type
/// and class in network byte order; or the error that its name gives.
pub open spec fn encode_question_spec(question: QuestionView) -> Result<Seq<u8>, CodecError> {
    match encode_name_spec(question.name) {
        Ok(wire) => Ok(wire + u16_bytes(question.qtype) + u16_bytes(question.qclass)),
        Err(e) => Err(e),
    }
}

/// What reading the question at `pos` gives: the question and the offset
/// behind it. The name fails as names do; type and class fail with
/// `TruncatedMessage` when their four bytes do not all lie in the buffer.
pub open spec fn read_question(buf: Seq<u8>, pos: int) -> Result<(QuestionView, int), CodecError> {
    match decode_name_spec(buf, pos) {
        Ok((name, end)) => if end + 4 > buf.len() {
            Err(CodecError::TruncatedMessage)
        } else {
            Ok(
                (
                    QuestionView { name, qtype: u16_at(buf, end), qclass: u16_at(buf, end + 2) },
                    end + 4,
                ),
            )
        },
        Err(e) => Err(e),
    }
}

impl Question {
    /// Reads the question that starts at `pos` and returns it with the
    /// offset behind it.
    ///
    /// Fails as `decode_name` does on its name, and with `TruncatedMessage`
    /// when the name is there but the four bytes of type and class are not.
    pub fn decode(buf: &[u8], pos: usize) -> (result: Result<(Question, usize), CodecError>)
        ensures
            match read_question(buf@, pos as int) {
                Ok((question, next)) => result is Ok && result->Ok_0.0@ == question
                    && result->Ok_0.1 == next && pos < next <= buf@.len(),
                Err(e) => result is Err && result->Err_0 == e,
            },
    {
        match decode_name(buf, pos) {
            Ok((name, end)) => {
                if buf.len() - end < 4 {
                    return Err(CodecError::TruncatedMessage);
                }
                let qtype: u16 = read_u16(buf, end);
                let qclass: u16 = read_u16(buf, end + 2);
                Ok((Question { name, qtype, qclass }, end + 4))
            },
            Err(e) => Err(e),
        }
    }

    /// A question for the host addresses of `query` in the Internet class.
    /// The name is taken as it stands; whether it can be encoded is found
    /// out when it is.
    pub fn new(query: &str) -> (question: Question)
        ensures
            question@ == (QuestionView {
                name: query.spec_bytes(),
                qtype: TYPE_A,
                qclass: CLASS_IN,
            }),
    {
        Question { name: slice_to_vec(query.as_bytes()), qtype: TYPE_A, qclass: CLASS_IN }
    }

    /// The wire form of the question.
    ///
    /// Fails with `LabelTooLong` exactly when a label of the name has more
    /// than 63 bytes, and with `NameTooLong` exactly when no label is too
    /// long and the wire form of the name would have more than 255 bytes.
    pub fn encode(&self) -> (result: Result<Vec<u8>, CodecError>)
        ensures
            match encode_question_spec(self@) {
                Ok(wire) => result is Ok && result->Ok_0@ == wire,
                Err(e) => result == Err::<Vec<u8>, CodecError>(e),
            },
    {
        match name_to_wire(self.name.as_slice()) {
            Ok(mut wire) => {
                let at: usize = wire.len();
                let ghost name_part = wire@;
                wire.push(0u8);
                wire.push(0u8);
                wire.push(0u8);
                wire.push(0u8);
                write_u16(&mut wire, at, self.qtype);
                write_u16(&mut wire, at + 2, self.qclass);
                proof {
                    assert(wire@ =~= name_part + u16_bytes(self.qtype) + u16_bytes(self.qclass));
                }
                Ok(wire)
            },
            Err(e) => Err(e),
        }
    }

    /// The wire form of the question, or `None` exactly when its name
    /// cannot be encoded.
    pub fn as_bytes(&self) -> (bytes: Option<Vec<u8>>)
        ensures
            match encode_question_spec(self@) {
                Ok(wire) => bytes is Some && bytes->Some_0@ == wire,
                Err(_) => bytes is None,
            },
    {
        match self.encode() {
            Ok(wire) => Some(wire),
            Err(_) => None,
        }
    }
}

} // verus!
