//! A whole message decoded into its header and its four sections.

use crate::consts::HEADER_LENGTH;
use crate::error::CodecError;
use crate::header::{header_of, Header};
use crate::packet::Packet;
use crate::question::{read_question, Question, QuestionView};
use crate::record::{read_record, RecordView, ResourceRecord};
use vstd::prelude::*;
use vstd::slice::slice_to_vec;

verus! {

/// A decoded message as plain mathematical values: the header, the
/// entries of the four sections in wire order, and the offset behind the
/// last entry.
pub struct MessageView {
    pub header: Header,
    pub questions: Seq<QuestionView>,
    pub answers: Seq<RecordView>,
    pub authorities: Seq<RecordView>,
    pub additionals: Seq<RecordView>,
    pub end: int,
}

/// The questions as plain values, in order.
pub open spec fn question_views(questions: Seq<Question>) -> Seq<QuestionView> {
    questions.map_values(|question: Question| question@)
}

/// The records as plain values, in order.
pub open spec fn record_views(records: Seq<ResourceRecord>) -> Seq<RecordView> {
    records.map_values(|record: ResourceRecord| record@)
}

/// What reading `count` questions one behind the other gives, the first
/// at `start`: the questions in order and the offset behind the last; or
/// the error of the first question that cannot be read.
pub open spec fn read_questions(buf: Seq<u8>, start: int, count: nat) -> Result<
    (Seq<QuestionView>, int),
    CodecError,
>
    decreases count,
{
    if count == 0 {
        Ok((Seq::<QuestionView>::empty(), start))
    } else {
        match read_questions(buf, start, (count - 1) as nat) {
            Ok((questions, pos)) => match read_question(buf, pos) {
                Ok((question, next)) => Ok((questions.push(question), next)),
                Err(e) => Err(e),
            },
            Err(e) => Err(e),
        }
    }
}

/// What reading `count` records one behind the other gives, the first at
/// `start`: the records in order and the offset behind the last; or the
/// error of the first record that cannot be read.
pub open spec fn read_records(buf: Seq<u8>, start: int, count: nat) -> Result<
    (Seq<RecordView>, int),
    CodecError,
>
    decreases count,
{
    if count == 0 {
        Ok((Seq::<RecordView>::empty(), start))
    } else {
        match read_records(buf, start, (count - 1) as nat) {
            Ok((records, pos)) => match read_record(buf, pos) {
                Ok((record, next)) => Ok((records.push(record), next)),
                Err(e) => Err(e),
            },
            Err(e) => Err(e),
        }
    }
}

/// What decoding a message gives. A buffer shorter than a header fails
/// with `TruncatedHeader`. Behind the header stand as many questions as the
/// header counts, then as many answers, authority records and additional
/// records as it counts, and the first entry that cannot be read decides the
/// error. Bytes behind the last entry are left alone.
pub open spec fn decode_message_spec(buf: Seq<u8>) -> Result<MessageView, CodecError> {
    if buf.len() < HEADER_LENGTH {
        Err(CodecError::TruncatedHeader)
    } else {
        let header = header_of(buf);
        match read_questions(buf, HEADER_LENGTH as int, header.qdcount as nat) {
            Ok((questions, answers_at)) => match read_records(
                buf,
                answers_at,
                header.ancount as nat,
            ) {
                Ok((answers, authorities_at)) => match read_records(
                    buf,
                    authorities_at,
                    header.nscount as nat,
                ) {
                    Ok((authorities, additionals_at)) => match read_records(
                        buf,
                        additionals_at,
                        header.arcount as nat,
                    ) {
                        Ok((additionals, end)) => Ok(
                            MessageView {
                                header,
                                questions,
                                answers,
                                authorities,
                                additionals,
                                end,
                            },
                        ),
                        Err(e) => Err(e),
                    },
                    Err(e) => Err(e),
                },
                Err(e) => Err(e),
            },
            Err(e) => Err(e),
        }
    }
}

/// Once a question cannot be read, asking for more questions gives the
/// same error.
pub proof fn lemma_read_questions_stuck(buf: Seq<u8>, start: int, count: nat, more: nat)
    requires
        count <= more,
        read_questions(buf, start, count) is Err,
    ensures
        read_questions(buf, start, more) == read_questions(buf, start, count),
    decreases more,
{
    if count < more {
        lemma_read_questions_stuck(buf, start, count, (more - 1) as nat);
    }
}

/// Once a record cannot be read, asking for more records gives the same
/// error.
pub proof fn lemma_read_records_stuck(buf: Seq<u8>, start: int, count: nat, more: nat)
    requires
        count <= more,
        read_records(buf, start, count) is Err,
    ensures
        read_records(buf, start, more) == read_records(buf, start, count),
    decreases more,
{
    if count < more {
        lemma_read_records_stuck(buf, start, count, (more - 1) as nat);
    }
}

/// Reads `count` questions one behind the other, the first at `start`.
pub fn decode_questions(buf: &[u8], start: usize, count: u16) -> (result: Result<
    (Vec<Question>, usize),
    CodecError,
>)
    ensures
        match read_questions(buf@, start as int, count as nat) {
            Ok((questions, end)) => result is Ok && question_views(result->Ok_0.0@) == questions
                && result->Ok_0.0@.len() == count && result->Ok_0.1 == end && start <= end && (
            end <= buf@.len() || end == start),
            Err(e) => result is Err && result->Err_0 == e,
        },
{
    let mut questions: Vec<Question> = Vec::new();
    let mut pos: usize = start;
    let mut done: u16 = 0;
    proof {
        assert(question_views(questions@) =~= Seq::<QuestionView>::empty());
    }
    while done < count
        invariant
            done <= count,
            start <= pos,
            pos <= buf@.len() || pos == start,
            questions@.len() == done,
            read_questions(buf@, start as int, done as nat) == Ok::<
                (Seq<QuestionView>, int),
                CodecError,
            >((question_views(questions@), pos as int)),
        decreases count - done,
    {
        match Question::decode(buf, pos) {
            Ok((question, next)) => {
                proof {
                    assert(question_views(questions@.push(question)) =~= question_views(
                        questions@,
                    ).push(question@));
                }
                questions.push(question);
                pos = next;
            },
            Err(e) => {
                proof {
                    lemma_read_questions_stuck(buf@, start as int, (done + 1) as nat, count as nat);
                }
                return Err(e);
            },
        }
        done = done + 1;
    }
    Ok((questions, pos))
}

/// Reads `count` records one behind the other, the first at `start`.
pub fn decode_records(buf: &[u8], start: usize, count: u16) -> (result: Result<
    (Vec<ResourceRecord>, usize),
    CodecError,
>)
    ensures
        match read_records(buf@, start as int, count as nat) {
            Ok((records, end)) => result is Ok && record_views(result->Ok_0.0@) == records
                && result->Ok_0.0@.len() == count && result->Ok_0.1 == end && start <= end && (
            end <= buf@.len() || end == start),
            Err(e) => result is Err && result->Err_0 == e,
        },
{
    let mut records: Vec<ResourceRecord> = Vec::new();
    let mut pos: usize = start;
    let mut done: u16 = 0;
    proof {
        assert(record_views(records@) =~= Seq::<RecordView>::empty());
    }
    while done < count
        invariant
            done <= count,
            start <= pos,
            pos <= buf@.len() || pos == start,
            records@.len() == done,
            read_records(buf@, start as int, done as nat) == Ok::<
                (Seq<RecordView>, int),
                CodecError,
            >((record_views(records@), pos as int)),
        decreases count - done,
    {
        match ResourceRecord::decode(buf, pos) {
            Ok((record, next)) => {
                proof {
                    assert(record_views(records@.push(record)) =~= record_views(records@).push(
                        record@,
                    ));
                }
                records.push(record);
                pos = next;
            },
            Err(e) => {
                proof {
                    lemma_read_records_stuck(buf@, start as int, (done + 1) as nat, count as nat);
                }
                return Err(e);
            },
        }
        done = done + 1;
    }
    Ok((records, pos))
}

/// A message that was decoded from a buffer. It owns the buffer and what
/// was read from it, and nothing changes it afterwards: it is always the
/// decoding of its own bytes.
#[derive(Debug)]
pub struct Message {
    packet: Packet,
    questions: Vec<Question>,
    answers: Vec<ResourceRecord>,
    authorities: Vec<ResourceRecord>,
    additionals: Vec<ResourceRecord>,
    length: usize,
}

impl View for Message {
    type V = MessageView;

    closed spec fn view(&self) -> MessageView {
        MessageView {
            header: header_of(self.packet@),
            questions: question_views(self.questions@),
            answers: record_views(self.answers@),
            authorities: record_views(self.authorities@),
            additionals: record_views(self.additionals@),
            end: self.length as int,
        }
    }
}

impl Message {
    #[verifier::type_invariant]
    spec fn decoded(self) -> bool {
        &&& decode_message_spec(self.packet@) == Ok::<MessageView, CodecError>(self@)
        &&& self.questions@.len() == header_of(self.packet@).qdcount
        &&& self.answers@.len() == header_of(self.packet@).ancount
        &&& self.authorities@.len() == header_of(self.packet@).nscount
        &&& self.additionals@.len() == header_of(self.packet@).arcount
        &&& HEADER_LENGTH <= self.length <= self.packet@.len()
    }

    /// The bytes that the message was decoded from.
    pub closed spec fn bytes(&self) -> Seq<u8> {
        self.packet@
    }

    /// Decodes a received buffer: the header, then as many questions,
    /// answers, authority records and additional records as the header
    /// counts. The message keeps a copy of the buffer; the buffer itself is
    /// only read.
    ///
    /// Fails with `TruncatedHeader` exactly when the buffer has fewer than
    /// twelve bytes. Otherwise it fails exactly when an entry cannot be
    /// read, with the error of the first such entry: a name gives
    /// `UnexpectedEndOfBuffer`, `InvalidLabelLength` or `CompressionLoop`,
    /// and fixed fields or record data that run past the end of the buffer
    /// give `TruncatedMessage`.
    pub fn decode(buf: &[u8]) -> (result: Result<Message, CodecError>)
        ensures
            match decode_message_spec(buf@) {
                Ok(message) => result is Ok && result->Ok_0@ == message && result->Ok_0.bytes()
                    == buf@,
                Err(e) => result is Err && result->Err_0 == e,
            },
    {
        let packet = match Packet::from_bytes(slice_to_vec(buf)) {
            Ok(packet) => packet,
            Err(e) => {
                return Err(e);
            },
        };
        let header = packet.header();
        let (questions, answers_at) = match decode_questions(
            packet.buf(),
            HEADER_LENGTH,
            header.qdcount,
        ) {
            Ok(read) => read,
            Err(e) => {
                return Err(e);
            },
        };
        let (answers, authorities_at) = match decode_records(
            packet.buf(),
            answers_at,
            header.ancount,
        ) {
            Ok(read) => read,
            Err(e) => {
                return Err(e);
            },
        };
        let (authorities, additionals_at) = match decode_records(
            packet.buf(),
            authorities_at,
            header.nscount,
        ) {
            Ok(read) => read,
            Err(e) => {
                return Err(e);
            },
        };
        let (additionals, length) = match decode_records(
            packet.buf(),
            additionals_at,
            header.arcount,
        ) {
            Ok(read) => read,
            Err(e) => {
                return Err(e);
            },
        };
        Ok(Message { packet, questions, answers, authorities, additionals, length })
    }

    /// The buffer that the message was decoded from, with its header
    /// accessors.
    pub fn packet(&self) -> (packet: &Packet)
        ensures
            packet@ == self.bytes(),
            decode_message_spec(self.bytes()) == Ok::<MessageView, CodecError>(self@),
    {
        proof {
            use_type_invariant(self);
        }
        &self.packet
    }

    /// The header fields.
    pub fn header(&self) -> (header: Header)
        ensures
            header == self@.header,
            header == header_of(self.bytes()),
    {
        self.packet.header()
    }

    /// The questions, as many as the header counts.
    pub fn questions(&self) -> (questions: &Vec<Question>)
        ensures
            question_views(questions@) == self@.questions,
            questions@.len() == self@.header.qdcount,
    {
        proof {
            use_type_invariant(self);
        }
        &self.questions
    }

    /// The answer records, as many as the header counts.
    pub fn answers(&self) -> (records: &Vec<ResourceRecord>)
        ensures
            record_views(records@) == self@.answers,
            records@.len() == self@.header.ancount,
    {
        proof {
            use_type_invariant(self);
        }
        &self.answers
    }

    /// The authority records, as many as the header counts.
    pub fn authorities(&self) -> (records: &Vec<ResourceRecord>)
        ensures
            record_views(records@) == self@.authorities,
            records@.len() == self@.header.nscount,
    {
        proof {
            use_type_invariant(self);
        }
        &self.authorities
    }

    /// The additional records, as many as the header counts.
    pub fn additionals(&self) -> (records: &Vec<ResourceRecord>)
        ensures
            record_views(records@) == self@.additionals,
            records@.len() == self@.header.arcount,
    {
        proof {
            use_type_invariant(self);
        }
        &self.additionals
    }

    /// Number of bytes from the start of the buffer to the end of the last
    /// entry.
    pub fn wire_length(&self) -> (length: usize)
        ensures
            length == self@.end,
            HEADER_LENGTH <= length <= self.bytes().len(),
    {
        proof {
            use_type_invariant(self);
        }
        self.length
    }
}

} // verus!
