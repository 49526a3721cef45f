use dunce::error::CodecError;
use dunce::message::{decode_questions, decode_records, Message};
use dunce::packet::Packet;
use dunce::question::Question;
use dunce::record::ResourceRecord;

fn header(id: u16, flags: u16, counts: [u16; 4]) -> Vec<u8> {
    let mut bytes = Vec::new();
    bytes.extend_from_slice(&id.to_be_bytes());
    bytes.extend_from_slice(&flags.to_be_bytes());
    for count in counts {
        bytes.extend_from_slice(&count.to_be_bytes());
    }
    bytes
}

/// A response to a query for www.icann.org: one question, two answers that
/// point back at the question's name, one authority record and one
/// additional record.
fn response() -> Vec<u8> {
    let mut bytes = header(0x1234, 0x8180, [1, 2, 1, 1]);
    bytes.extend_from_slice(b"\x03www\x05icann\x03org\x00");
    bytes.extend_from_slice(&[0, 1, 0, 1]);
    // answer 1: pointer to offset 12, type A, class IN, ttl 300, 4 bytes
    bytes.extend_from_slice(&[0xC0, 0x0C, 0, 1, 0, 1, 0, 0, 0x01, 0x2C, 0, 4, 192, 0, 43, 7]);
    // answer 2: pointer to offset 12, type AAAA, class IN, ttl 0x01020304, 16 bytes
    bytes.extend_from_slice(&[0xC0, 0x0C, 0, 28, 0, 1, 1, 2, 3, 4, 0, 16]);
    bytes.extend_from_slice(&[0x20, 0x01, 5, 0, 0, 0x88, 2, 0, 0, 0, 0, 0, 0, 0, 0, 7]);
    // authority: "icann.org" by pointer to offset 16, type NS, ttl 60, data "ns" + pointer
    bytes.extend_from_slice(&[0xC0, 0x10, 0, 2, 0, 1, 0, 0, 0, 60, 0, 5, 2, b'n', b's', 0xC0, 0x10]);
    // additional: the root name, type 41, class 4096, ttl 0, no data
    bytes.extend_from_slice(&[0, 0, 41, 0x10, 0x00, 0, 0, 0, 0, 0, 0]);
    bytes
}

#[test]
fn buffer_of_eleven_bytes_has_no_header() {
    assert_eq!(Message::decode(&[0u8; 11]).err(), Some(CodecError::TruncatedHeader));
}

#[test]
fn empty_buffer_has_no_header() {
    assert_eq!(Message::decode(&[]).err(), Some(CodecError::TruncatedHeader));
}

#[test]
fn header_alone_is_a_message_without_entries() {
    let message = Message::decode(&header(7, 0x8180, [0, 0, 0, 0])).unwrap();
    assert_eq!(message.header().id, 7);
    assert!(message.questions().is_empty());
    assert!(message.answers().is_empty());
    assert!(message.authorities().is_empty());
    assert!(message.additionals().is_empty());
    assert_eq!(message.wire_length(), 12);
}

#[test]
fn flags_word_8180_decodes_as_a_plain_response() {
    let message = Message::decode(&header(0, 0x8180, [0, 0, 0, 0])).unwrap();
    let header = message.header();
    assert!(!header.is_query);
    assert_eq!(header.opcode, 0);
    assert!(!header.authoritative);
    assert!(!header.truncated);
    assert!(header.recursion_desired);
    assert!(header.recursion_available);
    assert_eq!(header.rcode, 0);
}

#[test]
fn decodes_a_fresh_query() {
    let packet = Packet::query_with_id(0xCAFE, "www.icann.org").unwrap();
    let bytes = packet.buf().to_vec();
    let message = Message::decode(&bytes).unwrap();
    let header = message.header();
    assert_eq!(header.id, 0xCAFE);
    assert!(header.is_query);
    assert!(header.recursion_desired);
    assert_eq!(header.qdcount, 1);
    assert_eq!(message.questions().len(), 1);
    assert_eq!(message.questions()[0].name, b"www.icann.org".to_vec());
    assert_eq!(message.questions()[0].qtype, 1);
    assert_eq!(message.questions()[0].qclass, 1);
    assert!(message.answers().is_empty());
    assert_eq!(message.wire_length(), bytes.len());
    assert_eq!(message.packet().buf(), &bytes[..]);
}

#[test]
fn decodes_a_response_with_all_sections() {
    let bytes = response();
    let message = Message::decode(&bytes).unwrap();
    assert_eq!(message.header().id, 0x1234);
    assert!(!message.header().is_query);

    assert_eq!(message.questions().len(), 1);
    assert_eq!(message.questions()[0].name, b"www.icann.org".to_vec());

    let answers = message.answers();
    assert_eq!(answers.len(), 2);
    assert_eq!(answers[0].name, b"www.icann.org".to_vec());
    assert_eq!(answers[0].rtype, 1);
    assert_eq!(answers[0].rclass, 1);
    assert_eq!(answers[0].ttl, 300);
    assert_eq!(answers[0].rdlength, 4);
    assert_eq!(answers[0].rdata, vec![192, 0, 43, 7]);
    assert_eq!(answers[1].name, b"www.icann.org".to_vec());
    assert_eq!(answers[1].rtype, 28);
    assert_eq!(answers[1].ttl, 0x01020304);
    assert_eq!(answers[1].rdlength, 16);
    assert_eq!(answers[1].rdata.len(), 16);
    assert_eq!(answers[1].rdata[0], 0x20);
    assert_eq!(answers[1].rdata[15], 7);

    let authorities = message.authorities();
    assert_eq!(authorities.len(), 1);
    assert_eq!(authorities[0].name, b"icann.org".to_vec());
    assert_eq!(authorities[0].rtype, 2);
    assert_eq!(authorities[0].ttl, 60);
    assert_eq!(authorities[0].rdata, vec![2, b'n', b's', 0xC0, 0x10]);

    let additionals = message.additionals();
    assert_eq!(additionals.len(), 1);
    assert_eq!(additionals[0].name, Vec::<u8>::new());
    assert_eq!(additionals[0].rtype, 41);
    assert_eq!(additionals[0].rclass, 4096);
    assert_eq!(additionals[0].ttl, 0);
    assert_eq!(additionals[0].rdlength, 0);
    assert!(additionals[0].rdata.is_empty());

    assert_eq!(message.wire_length(), bytes.len());
}

#[test]
fn section_lengths_equal_the_header_counts() {
    let message = Message::decode(&response()).unwrap();
    let header = message.header();
    assert_eq!(message.questions().len(), header.qdcount as usize);
    assert_eq!(message.answers().len(), header.ancount as usize);
    assert_eq!(message.authorities().len(), header.nscount as usize);
    assert_eq!(message.additionals().len(), header.arcount as usize);
    assert_eq!(message.packet().qdcount(), 1);
    assert_eq!(message.packet().ancount(), 2);
    assert_eq!(message.packet().nscount(), 1);
    assert_eq!(message.packet().arcount(), 1);
}

#[test]
fn bytes_behind_the_last_entry_are_left_alone() {
    let mut bytes = response();
    let length = bytes.len();
    bytes.extend_from_slice(&[0xDE, 0xAD]);
    let message = Message::decode(&bytes).unwrap();
    assert_eq!(message.wire_length(), length);
    assert_eq!(message.additionals().len(), 1);
}

#[test]
fn response_cut_at_any_offset_fails() {
    let bytes = response();
    for cut in 0..bytes.len() {
        let result = Message::decode(&bytes[..cut]);
        assert!(result.is_err(), "cut at {}", cut);
        if cut < 12 {
            assert_eq!(result.err(), Some(CodecError::TruncatedHeader));
        }
    }
}

#[test]
fn query_cut_at_any_offset_fails() {
    let bytes = Packet::query_with_id(1, "www.icann.org").unwrap().buf().to_vec();
    for cut in 0..bytes.len() {
        assert!(Message::decode(&bytes[..cut]).is_err());
    }
}

#[test]
fn question_without_type_and_class_is_truncated() {
    let mut bytes = header(0, 0, [1, 0, 0, 0]);
    bytes.extend_from_slice(b"\x01a\x00");
    bytes.extend_from_slice(&[0, 1, 0]);
    assert_eq!(Message::decode(&bytes).err(), Some(CodecError::TruncatedMessage));
}

#[test]
fn missing_question_is_out_of_buffer() {
    let bytes = header(0, 0, [1, 0, 0, 0]);
    assert_eq!(Message::decode(&bytes).err(), Some(CodecError::UnexpectedEndOfBuffer));
}

#[test]
fn missing_record_is_out_of_buffer() {
    let mut bytes = header(0, 0, [0, 0, 0, 1]);
    bytes.extend_from_slice(b"\x01a");
    assert_eq!(Message::decode(&bytes).err(), Some(CodecError::UnexpectedEndOfBuffer));
}

#[test]
fn record_without_fixed_fields_is_truncated() {
    let mut bytes = header(0, 0, [0, 1, 0, 0]);
    bytes.extend_from_slice(b"\x01a\x00");
    bytes.extend_from_slice(&[0, 1, 0, 1, 0, 0, 0, 0, 0]);
    assert_eq!(Message::decode(&bytes).err(), Some(CodecError::TruncatedMessage));
}

#[test]
fn data_length_past_the_end_is_truncated() {
    let mut bytes = header(0, 0, [0, 1, 1, 0]);
    bytes.extend_from_slice(b"\x01a\x00");
    bytes.extend_from_slice(&[0, 1, 0, 1, 0, 0, 0, 0, 0, 5, 1, 2, 3, 4]);
    assert_eq!(Message::decode(&bytes).err(), Some(CodecError::TruncatedMessage));
}

#[test]
fn data_length_does_not_eat_the_next_record() {
    // The first record says 4 data bytes; the second starts right behind them.
    let mut bytes = header(0, 0, [0, 2, 0, 0]);
    bytes.extend_from_slice(&[0, 0, 1, 0, 1, 0, 0, 0, 0, 0, 4, 1, 2, 3, 4]);
    bytes.extend_from_slice(&[0, 0, 16, 0, 1, 0, 0, 0, 9, 0, 1, 0x61]);
    let message = Message::decode(&bytes).unwrap();
    assert_eq!(message.answers()[0].rdata, vec![1, 2, 3, 4]);
    assert_eq!(message.answers()[1].rtype, 16);
    assert_eq!(message.answers()[1].ttl, 9);
    assert_eq!(message.answers()[1].rdata, vec![0x61]);
}

#[test]
fn invalid_label_length_in_a_question() {
    let mut bytes = header(0, 0, [1, 0, 0, 0]);
    bytes.extend_from_slice(&[0x45, 0, 0, 1, 0, 1]);
    assert_eq!(Message::decode(&bytes).err(), Some(CodecError::InvalidLabelLength));
}

#[test]
fn pointer_loop_in_a_record() {
    let mut bytes = header(0, 0, [0, 1, 0, 0]);
    bytes.extend_from_slice(&[0xC0, 0x0C, 0, 1, 0, 1, 0, 0, 0, 0, 0, 0]);
    assert_eq!(Message::decode(&bytes).err(), Some(CodecError::CompressionLoop));
}

#[test]
fn first_failing_entry_decides_the_error() {
    let mut bytes = header(0, 0, [2, 1, 0, 0]);
    bytes.extend_from_slice(b"\x01a\x00\x00\x01\x00\x01");
    bytes.extend_from_slice(&[0x80]);
    bytes.extend_from_slice(&[0xC0, 0x13]);
    assert_eq!(Message::decode(&bytes).err(), Some(CodecError::InvalidLabelLength));
}

#[test]
fn pointer_into_the_header_reads_header_bytes() {
    // The identifier 0x0161 reads as the label "a" when a name points at offset 0,
    // and the flags byte behind it as the terminator.
    let mut bytes = vec![0x01, 0x61, 0x00, 0x00, 0, 1, 0, 0, 0, 0, 0, 0];
    bytes.extend_from_slice(&[0xC0, 0x00, 0, 1, 0, 1]);
    let message = Message::decode(&bytes).unwrap();
    assert_eq!(message.questions()[0].name, b"a".to_vec());
}

#[test]
fn decode_question_at_an_offset() {
    let buf = b"??\x02ab\x01c\x00\x00\x0F\x00\x03!".to_vec();
    let (question, next) = Question::decode(&buf, 2).unwrap();
    assert_eq!(question.name, b"ab.c".to_vec());
    assert_eq!(question.qtype, 15);
    assert_eq!(question.qclass, 3);
    assert_eq!(next, 12);
}

#[test]
fn decode_record_at_an_offset() {
    let buf = b"\x02ab\x00\x00\x05\x00\x01\x00\x00\x0E\x10\x00\x02hi.".to_vec();
    let (record, next) = ResourceRecord::decode(&buf, 0).unwrap();
    assert_eq!(record.name, b"ab".to_vec());
    assert_eq!(record.rtype, 5);
    assert_eq!(record.rclass, 1);
    assert_eq!(record.ttl, 3600);
    assert_eq!(record.rdlength, 2);
    assert_eq!(record.rdata, b"hi".to_vec());
    assert_eq!(next, 16);
}

#[test]
fn decode_several_questions() {
    let buf = b"\x01a\x00\x00\x01\x00\x01\x01b\x00\x00\x02\x00\x01".to_vec();
    let (questions, end) = decode_questions(&buf, 0, 2).unwrap();
    assert_eq!(questions.len(), 2);
    assert_eq!(questions[0].name, b"a".to_vec());
    assert_eq!(questions[1].name, b"b".to_vec());
    assert_eq!(questions[1].qtype, 2);
    assert_eq!(end, 14);
    assert_eq!(decode_questions(&buf, 0, 3).err(), Some(CodecError::UnexpectedEndOfBuffer));
    let (none, at) = decode_questions(&buf, 5, 0).unwrap();
    assert!(none.is_empty());
    assert_eq!(at, 5);
}

#[test]
fn decode_several_records() {
    let buf = b"\x00\x00\x01\x00\x01\x00\x00\x00\x01\x00\x01x\x00\x00\x02\x00\x01\x00\x00\x00\x02\x00\x00"
        .to_vec();
    let (records, end) = decode_records(&buf, 0, 2).unwrap();
    assert_eq!(records.len(), 2);
    assert_eq!(records[0].rdata, b"x".to_vec());
    assert_eq!(records[1].rtype, 2);
    assert_eq!(records[1].ttl, 2);
    assert_eq!(end, 23);
    assert_eq!(decode_records(&buf, 0, 3).err(), Some(CodecError::UnexpectedEndOfBuffer));
}
