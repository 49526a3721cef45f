//! What holds of decoding whole messages, whatever the input.

use crate::consts::{CLASS_IN, HEADER_LENGTH, MAX_JUMPS, TYPE_A};
use crate::error::CodecError;
use crate::header::{header_of, Header};
use crate::message::{decode_message_spec, read_questions, read_records, MessageView};
use crate::name::{
    decode_name_spec, labels_nonempty, labels_of, lemma_name_end_in_buffer, name_wire,
};
use crate::name_proofs::{lemma_name_round_trip, lemma_walk_prefix};
use crate::packet::{lemma_query_header_fields, query_header, query_spec};
use crate::question::{read_question, QuestionView};
use crate::record::{read_record, RecordView};
use crate::wire::u16_bytes;
use vstd::prelude::*;

verus! {

/// A question that can be read lies inside the buffer.
pub proof fn lemma_question_in_buffer(buf: Seq<u8>, pos: int)
    requires
        read_question(buf, pos) is Ok,
    ensures
        0 <= pos < read_question(buf, pos)->Ok_0.1 <= buf.len(),
{
    lemma_name_end_in_buffer(buf, pos, MAX_JUMPS as nat);
}

/// A record that can be read lies inside the buffer, and its data are as
/// long as its length field says.
pub proof fn lemma_record_in_buffer(buf: Seq<u8>, pos: int)
    requires
        read_record(buf, pos) is Ok,
    ensures
        0 <= pos < read_record(buf, pos)->Ok_0.1 <= buf.len(),
        read_record(buf, pos)->Ok_0.0.rdata.len() == read_record(buf, pos)->Ok_0.0.rdlength,
{
    lemma_name_end_in_buffer(buf, pos, MAX_JUMPS as nat);
}

/// Questions that can be read are as many as were asked for and lie
/// inside the buffer.
pub proof fn lemma_questions_in_buffer(buf: Seq<u8>, start: int, count: nat)
    requires
        0 <= start <= buf.len(),
        read_questions(buf, start, count) is Ok,
    ensures
        read_questions(buf, start, count)->Ok_0.0.len() == count,
        start <= read_questions(buf, start, count)->Ok_0.1 <= buf.len(),
    decreases count,
{
    if count > 0 {
        lemma_questions_in_buffer(buf, start, (count - 1) as nat);
        lemma_question_in_buffer(buf, read_questions(buf, start, (count - 1) as nat)->Ok_0.1);
    }
}

/// Records that can be read are as many as were asked for and lie inside
/// the buffer.
pub proof fn lemma_records_in_buffer(buf: Seq<u8>, start: int, count: nat)
    requires
        0 <= start <= buf.len(),
        read_records(buf, start, count) is Ok,
    ensures
        read_records(buf, start, count)->Ok_0.0.len() == count,
        start <= read_records(buf, start, count)->Ok_0.1 <= buf.len(),
    decreases count,
{
    if count > 0 {
        lemma_records_in_buffer(buf, start, (count - 1) as nat);
        lemma_record_in_buffer(buf, read_records(buf, start, (count - 1) as nat)->Ok_0.1);
    }
}

/// A decoded message has its header from the first twelve bytes, and each
/// of its sections holds exactly as many entries as the header counts for
/// it. Its end lies behind the header and inside the buffer.
pub proof fn lemma_counts_match(buf: Seq<u8>)
    requires
        decode_message_spec(buf) is Ok,
    ensures
        decode_message_spec(buf)->Ok_0.header == header_of(buf),
        decode_message_spec(buf)->Ok_0.questions.len() == header_of(buf).qdcount,
        decode_message_spec(buf)->Ok_0.answers.len() == header_of(buf).ancount,
        decode_message_spec(buf)->Ok_0.authorities.len() == header_of(buf).nscount,
        decode_message_spec(buf)->Ok_0.additionals.len() == header_of(buf).arcount,
        HEADER_LENGTH <= decode_message_spec(buf)->Ok_0.end <= buf.len(),
{
    let header = header_of(buf);
    let start = HEADER_LENGTH as int;
    lemma_questions_in_buffer(buf, start, header.qdcount as nat);
    let answers_at = read_questions(buf, start, header.qdcount as nat)->Ok_0.1;
    lemma_records_in_buffer(buf, answers_at, header.ancount as nat);
    let authorities_at = read_records(buf, answers_at, header.ancount as nat)->Ok_0.1;
    lemma_records_in_buffer(buf, authorities_at, header.nscount as nat);
    let additionals_at = read_records(buf, authorities_at, header.nscount as nat)->Ok_0.1;
    lemma_records_in_buffer(buf, additionals_at, header.arcount as nat);
}

/// A question that can be read in the first `k` bytes of a buffer reads
/// the same in the whole buffer.
pub proof fn lemma_question_prefix(buf: Seq<u8>, k: int, pos: int)
    requires
        0 <= k <= buf.len(),
        read_question(buf.take(k), pos) is Ok,
    ensures
        read_question(buf, pos) == read_question(buf.take(k), pos),
{
    let cut = buf.take(k);
    lemma_walk_prefix(buf, k, pos, MAX_JUMPS as nat);
    lemma_name_end_in_buffer(cut, pos, MAX_JUMPS as nat);
    let end = decode_name_spec(cut, pos)->Ok_0.1;
    assert(cut[end] == buf[end] && cut[end + 1] == buf[end + 1]);
    assert(cut[end + 2] == buf[end + 2] && cut[end + 3] == buf[end + 3]);
}

/// A record that can be read in the first `k` bytes of a buffer reads the
/// same in the whole buffer.
pub proof fn lemma_record_prefix(buf: Seq<u8>, k: int, pos: int)
    requires
        0 <= k <= buf.len(),
        read_record(buf.take(k), pos) is Ok,
    ensures
        read_record(buf, pos) == read_record(buf.take(k), pos),
{
    let cut = buf.take(k);
    lemma_walk_prefix(buf, k, pos, MAX_JUMPS as nat);
    lemma_name_end_in_buffer(cut, pos, MAX_JUMPS as nat);
    let end = decode_name_spec(cut, pos)->Ok_0.1;
    assert(cut[end] == buf[end] && cut[end + 1] == buf[end + 1]);
    assert(cut[end + 2] == buf[end + 2] && cut[end + 3] == buf[end + 3]);
    assert(cut[end + 4] == buf[end + 4] && cut[end + 5] == buf[end + 5]);
    assert(cut[end + 6] == buf[end + 6] && cut[end + 7] == buf[end + 7]);
    assert(cut[end + 8] == buf[end + 8] && cut[end + 9] == buf[end + 9]);
    let next = read_record(cut, pos)->Ok_0.1;
    assert(cut.subrange(end + 10, next) =~= buf.subrange(end + 10, next));
}

/// Questions that can be read in the first `k` bytes of a buffer read the
/// same in the whole buffer.
pub proof fn lemma_questions_prefix(buf: Seq<u8>, k: int, start: int, count: nat)
    requires
        0 <= k <= buf.len(),
        read_questions(buf.take(k), start, count) is Ok,
    ensures
        read_questions(buf, start, count) == read_questions(buf.take(k), start, count),
    decreases count,
{
    if count > 0 {
        lemma_questions_prefix(buf, k, start, (count - 1) as nat);
        lemma_question_prefix(
            buf,
            k,
            read_questions(buf.take(k), start, (count - 1) as nat)->Ok_0.1,
        );
    }
}

/// Records that can be read in the first `k` bytes of a buffer read the
/// same in the whole buffer.
pub proof fn lemma_records_prefix(buf: Seq<u8>, k: int, start: int, count: nat)
    requires
        0 <= k <= buf.len(),
        read_records(buf.take(k), start, count) is Ok,
    ensures
        read_records(buf, start, count) == read_records(buf.take(k), start, count),
    decreases count,
{
    if count > 0 {
        lemma_records_prefix(buf, k, start, (count - 1) as nat);
        lemma_record_prefix(buf, k, read_records(buf.take(k), start, (count - 1) as nat)->Ok_0.1);
    }
}

/// A message that decodes in the first `k` bytes of a buffer decodes to
/// the same in the whole buffer.
pub proof fn lemma_message_prefix(buf: Seq<u8>, k: int)
    requires
        0 <= k <= buf.len(),
        decode_message_spec(buf.take(k)) is Ok,
    ensures
        decode_message_spec(buf) == decode_message_spec(buf.take(k)),
{
    let cut = buf.take(k);
    assert(header_of(cut) == header_of(buf)) by {
        assert(cut[0] == buf[0] && cut[1] == buf[1] && cut[2] == buf[2] && cut[3] == buf[3]);
        assert(cut[4] == buf[4] && cut[5] == buf[5] && cut[6] == buf[6] && cut[7] == buf[7]);
        assert(cut[8] == buf[8] && cut[9] == buf[9] && cut[10] == buf[10] && cut[11] == buf[11]);
    }
    let header = header_of(buf);
    let start = HEADER_LENGTH as int;
    lemma_questions_prefix(buf, k, start, header.qdcount as nat);
    let answers_at = read_questions(cut, start, header.qdcount as nat)->Ok_0.1;
    lemma_records_prefix(buf, k, answers_at, header.ancount as nat);
    let authorities_at = read_records(cut, answers_at, header.ancount as nat)->Ok_0.1;
    lemma_records_prefix(buf, k, authorities_at, header.nscount as nat);
    let additionals_at = read_records(cut, authorities_at, header.nscount as nat)->Ok_0.1;
    lemma_records_prefix(buf, k, additionals_at, header.arcount as nat);
}

/// A message that decodes does not decode in any shorter prefix of the
/// buffer that cuts into it: whatever offset before its end the buffer is
/// cut at, decoding the rest fails.
pub proof fn lemma_message_cut_fails(buf: Seq<u8>, k: int)
    requires
        decode_message_spec(buf) is Ok,
        0 <= k < decode_message_spec(buf)->Ok_0.end,
    ensures
        decode_message_spec(buf.take(k)) is Err,
{
    lemma_counts_match(buf);
    if decode_message_spec(buf.take(k)) is Ok {
        lemma_message_prefix(buf, k);
        lemma_counts_match(buf.take(k));
    }
}

/// Decoding a fresh query gives back what it was built from: the header
/// of a standard query with the same identifier, one question with the same
/// name, type A and class IN, and no records; and the message ends where the
/// buffer ends. This holds of every name that can be encoded and has no
/// empty label.
pub proof fn lemma_query_decodes(id: u16, name: Seq<u8>)
    requires
        query_spec(id, name) is Ok,
        labels_nonempty(labels_of(name)),
    ensures
        decode_message_spec(query_spec(id, name)->Ok_0) == Ok::<MessageView, CodecError>(
            MessageView {
                header: Header {
                    id,
                    is_query: true,
                    opcode: 0,
                    authoritative: false,
                    truncated: false,
                    recursion_desired: true,
                    recursion_available: false,
                    z: 0,
                    rcode: 0,
                    qdcount: 1,
                    ancount: 0,
                    nscount: 0,
                    arcount: 0,
                },
                questions: seq![QuestionView { name, qtype: TYPE_A, qclass: CLASS_IN }],
                answers: Seq::<RecordView>::empty(),
                authorities: Seq::<RecordView>::empty(),
                additionals: Seq::<RecordView>::empty(),
                end: query_spec(id, name)->Ok_0.len() as int,
            },
        ),
{
    let tail = u16_bytes(TYPE_A) + u16_bytes(CLASS_IN);
    let wire = name_wire(name) + u16_bytes(TYPE_A) + u16_bytes(CLASS_IN);
    let buf = query_header(id) + wire;
    assert(buf =~= query_header(id) + name_wire(name) + tail);
    lemma_query_header_fields(id, wire);
    lemma_name_round_trip(name, query_header(id), tail);
    let start = HEADER_LENGTH as int;
    let end = start + name_wire(name).len();
    assert(decode_name_spec(buf, start) == Ok::<(Seq<u8>, int), CodecError>((name, end)));
    assert(buf[end] == 0u8 && buf[end + 1] == 1u8 && buf[end + 2] == 0u8 && buf[end + 3] == 1u8);
    assert(read_question(buf, start) == Ok::<(QuestionView, int), CodecError>(
        (QuestionView { name, qtype: TYPE_A, qclass: CLASS_IN }, end + 4),
    ));
    assert(read_questions(buf, start, 0) == Ok::<(Seq<QuestionView>, int), CodecError>(
        (Seq::<QuestionView>::empty(), start),
    ));
    assert(read_questions(buf, start, 1) == Ok::<(Seq<QuestionView>, int), CodecError>(
        (Seq::<QuestionView>::empty().push(QuestionView { name, qtype: TYPE_A, qclass: CLASS_IN }),
        end + 4),
    )) by {
        reveal_with_fuel(read_questions, 2);
    }
    assert(Seq::<QuestionView>::empty().push(
        QuestionView { name, qtype: TYPE_A, qclass: CLASS_IN },
    ) =~= seq![QuestionView { name, qtype: TYPE_A, qclass: CLASS_IN }]);
}

} // verus!
