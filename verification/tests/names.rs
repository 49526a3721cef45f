use dunce::error::CodecError;
use dunce::name::{decode_name, encode_name, name_to_wire};

fn label_of(length: usize) -> Vec<u8> {
    vec![b'a'; length]
}

fn dotted_labels(count: usize, length: usize) -> Vec<u8> {
    let mut name = Vec::new();
    for i in 0..count {
        if i > 0 {
            name.push(b'.');
        }
        name.extend_from_slice(&label_of(length));
    }
    name
}

#[test]
fn encodes_labels_in_text_order() {
    let wire = name_to_wire(b"www.icann.org").unwrap();
    assert_eq!(
        wire,
        vec![3, b'w', b'w', b'w', 5, b'i', b'c', b'a', b'n', b'n', 3, b'o', b'r', b'g', 0]
    );
}

#[test]
fn encodes_single_label() {
    assert_eq!(name_to_wire(b"localhost").unwrap(), b"\x09localhost\x00".to_vec());
}

#[test]
fn encode_name_appends_and_counts() {
    let mut out = vec![0xAA, 0xBB];
    let written = encode_name(b"a.bc", &mut out).unwrap();
    assert_eq!(written, 6);
    assert_eq!(out, vec![0xAA, 0xBB, 1, b'a', 2, b'b', b'c', 0]);
}

#[test]
fn encode_name_leaves_output_alone_on_failure() {
    let mut out = vec![1, 2, 3];
    let name = label_of(64);
    assert_eq!(encode_name(&name, &mut out), Err(CodecError::LabelTooLong));
    assert_eq!(out, vec![1, 2, 3]);
}

#[test]
fn empty_name_is_an_empty_label_and_a_terminator() {
    assert_eq!(name_to_wire(b"").unwrap(), vec![0, 0]);
}

#[test]
fn trailing_dot_gives_an_empty_last_label() {
    assert_eq!(name_to_wire(b"a.").unwrap(), vec![1, b'a', 0, 0]);
}

#[test]
fn label_of_63_bytes_is_accepted() {
    let name = label_of(63);
    let wire = name_to_wire(&name).unwrap();
    assert_eq!(wire.len(), 65);
    assert_eq!(wire[0], 63);
    assert_eq!(wire[64], 0);
}

#[test]
fn label_of_64_bytes_is_too_long() {
    assert_eq!(name_to_wire(&label_of(64)), Err(CodecError::LabelTooLong));
}

#[test]
fn long_label_in_the_middle_is_too_long() {
    let mut name = b"ok.".to_vec();
    name.extend_from_slice(&label_of(70));
    name.extend_from_slice(b".org");
    assert_eq!(name_to_wire(&name), Err(CodecError::LabelTooLong));
}

#[test]
fn wire_form_of_255_bytes_is_accepted() {
    // 4 labels of 62 bytes and 3 dots: 251 bytes of text, then two more.
    let mut name = dotted_labels(4, 62);
    name.extend_from_slice(b".b");
    assert_eq!(name.len(), 253);
    let wire = name_to_wire(&name).unwrap();
    assert_eq!(wire.len(), 255);
}

#[test]
fn wire_form_of_256_bytes_is_too_long() {
    let mut name = dotted_labels(4, 62);
    name.extend_from_slice(b".bc");
    assert_eq!(name.len(), 254);
    assert_eq!(name_to_wire(&name), Err(CodecError::NameTooLong));
}

#[test]
fn long_label_is_reported_before_long_name() {
    let mut name = dotted_labels(5, 60);
    name.push(b'.');
    name.extend_from_slice(&label_of(64));
    assert!(name.len() > 253);
    assert_eq!(name_to_wire(&name), Err(CodecError::LabelTooLong));
}

#[test]
fn decodes_literal_name() {
    let buf = b"\x03www\x05icann\x03org\x00rest".to_vec();
    let (name, end) = decode_name(&buf, 0).unwrap();
    assert_eq!(name, b"www.icann.org".to_vec());
    assert_eq!(end, 15);
}

#[test]
fn decodes_root_name() {
    let buf = vec![7, 0, 9];
    let (name, end) = decode_name(&buf, 1).unwrap();
    assert_eq!(name, Vec::<u8>::new());
    assert_eq!(end, 2);
}

#[test]
fn round_trip_gives_the_name_back() {
    let names: [&[u8]; 5] =
        [b"www.icann.org", b"a", b"a.b.c.d.e.f", b"xn--bcher-kva.example", b"UPPER.lower.123"];
    for name in names {
        let mut buf = vec![0xFF; 7];
        let written = encode_name(name, &mut buf).unwrap();
        buf.extend_from_slice(&[0xEE; 3]);
        let (decoded, end) = decode_name(&buf, 7).unwrap();
        assert_eq!(decoded, name.to_vec());
        assert_eq!(end, 7 + written);
    }
}

#[test]
fn round_trip_of_the_longest_name() {
    let mut name = dotted_labels(3, 63);
    name.push(b'.');
    name.extend_from_slice(&label_of(61));
    assert_eq!(name.len(), 253);
    let wire = name_to_wire(&name).unwrap();
    let (decoded, end) = decode_name(&wire, 0).unwrap();
    assert_eq!(decoded, name);
    assert_eq!(end, 255);
}

#[test]
fn empty_name_round_trips_as_text() {
    let wire = name_to_wire(b"").unwrap();
    let (decoded, end) = decode_name(&wire, 0).unwrap();
    assert_eq!(decoded, Vec::<u8>::new());
    assert_eq!(end, 1);
}

#[test]
fn empty_label_cuts_the_round_trip_short() {
    let wire = name_to_wire(b"a..b").unwrap();
    assert_eq!(wire, vec![1, b'a', 0, 1, b'b', 0]);
    let (decoded, end) = decode_name(&wire, 0).unwrap();
    assert_eq!(decoded, b"a".to_vec());
    assert_eq!(end, 3);
}

#[test]
fn pointer_decodes_to_the_name_it_points_at() {
    let mut buf = vec![0u8; 12];
    buf.extend_from_slice(b"\x03www\x00");
    buf.extend_from_slice(&[9, 9, 9]);
    assert_eq!(buf.len(), 20);
    buf.extend_from_slice(&[0xC0, 0x0C, 0x55]);
    let (literal, literal_end) = decode_name(&buf, 12).unwrap();
    let (pointed, pointed_end) = decode_name(&buf, 20).unwrap();
    assert_eq!(literal, b"www".to_vec());
    assert_eq!(pointed, literal);
    assert_eq!(literal_end, 17);
    assert_eq!(pointed_end, 22);
}

#[test]
fn labels_before_a_pointer_are_kept() {
    // offset 0: "org"; offset 5: "icann" then pointer to 0; offset 13: "www" then pointer to 5.
    let mut buf = b"\x03org\x00".to_vec();
    buf.extend_from_slice(b"\x05icann\xC0\x00");
    buf.extend_from_slice(b"\x03www\xC0\x05");
    let (name, end) = decode_name(&buf, 13).unwrap();
    assert_eq!(name, b"www.icann.org".to_vec());
    assert_eq!(end, 19);
}

#[test]
fn pointer_uses_fourteen_bits() {
    let mut buf = vec![0u8; 0x0234];
    buf.extend_from_slice(b"\x02hi\x00");
    buf.extend_from_slice(&[0xC2, 0x34]);
    let (name, end) = decode_name(&buf, 0x0238).unwrap();
    assert_eq!(name, b"hi".to_vec());
    assert_eq!(end, 0x023A);
}

#[test]
fn pointer_to_itself_is_a_loop() {
    let buf = vec![0xC0, 0x00];
    assert_eq!(decode_name(&buf, 0), Err(CodecError::CompressionLoop));
}

#[test]
fn two_pointers_at_each_other_are_a_loop() {
    let buf = vec![0xC0, 0x02, 0xC0, 0x00];
    assert_eq!(decode_name(&buf, 0), Err(CodecError::CompressionLoop));
    assert_eq!(decode_name(&buf, 2), Err(CodecError::CompressionLoop));
}

#[test]
fn loop_through_a_label_is_a_loop() {
    let buf = b"\x01a\xC0\x00".to_vec();
    assert_eq!(decode_name(&buf, 0), Err(CodecError::CompressionLoop));
}

fn pointer_chain(pointers: usize) -> Vec<u8> {
    // A name at offset 0, then `pointers` pointers, each to the one before it.
    let mut buf = b"\x01x\x00".to_vec();
    buf.push(0);
    for i in 0..pointers {
        let target = if i == 0 { 0 } else { 4 + 2 * (i - 1) };
        buf.push(0xC0 | (target >> 8) as u8);
        buf.push((target & 0xFF) as u8);
    }
    buf
}

#[test]
fn chain_of_128_pointers_is_followed() {
    let buf = pointer_chain(128);
    let start = 4 + 2 * 127;
    let (name, end) = decode_name(&buf, start).unwrap();
    assert_eq!(name, b"x".to_vec());
    assert_eq!(end, start + 2);
}

#[test]
fn chain_of_129_pointers_is_refused() {
    let buf = pointer_chain(129);
    let start = 4 + 2 * 128;
    assert_eq!(decode_name(&buf, start), Err(CodecError::CompressionLoop));
}

#[test]
fn length_byte_between_64_and_191_is_invalid() {
    assert_eq!(decode_name(&[64, 0, 0], 0), Err(CodecError::InvalidLabelLength));
    assert_eq!(decode_name(&[0x80, 0, 0], 0), Err(CodecError::InvalidLabelLength));
    assert_eq!(decode_name(&[0xBF, 0, 0], 0), Err(CodecError::InvalidLabelLength));
    assert_eq!(decode_name(b"\x01a\x7F", 0), Err(CodecError::InvalidLabelLength));
}

#[test]
fn start_past_the_end_is_out_of_buffer() {
    assert_eq!(decode_name(&[], 0), Err(CodecError::UnexpectedEndOfBuffer));
    assert_eq!(decode_name(&[0], 1), Err(CodecError::UnexpectedEndOfBuffer));
    assert_eq!(decode_name(&[0], 1000), Err(CodecError::UnexpectedEndOfBuffer));
}

#[test]
fn missing_terminator_is_out_of_buffer() {
    assert_eq!(decode_name(b"\x03www", 0), Err(CodecError::UnexpectedEndOfBuffer));
}

#[test]
fn label_cut_short_is_out_of_buffer() {
    assert_eq!(decode_name(b"\x05ica", 0), Err(CodecError::UnexpectedEndOfBuffer));
}

#[test]
fn pointer_without_second_byte_is_out_of_buffer() {
    assert_eq!(decode_name(&[0xC0], 0), Err(CodecError::UnexpectedEndOfBuffer));
}

#[test]
fn pointer_past_the_end_is_out_of_buffer() {
    assert_eq!(decode_name(&[0xC0, 0x10], 0), Err(CodecError::UnexpectedEndOfBuffer));
}

#[test]
fn name_cut_at_any_offset_fails() {
    let mut buf = b"\x03org\x00".to_vec();
    buf.extend_from_slice(b"\x03www\x05icann\xC0\x00");
    let start = 5;
    let (_, end) = decode_name(&buf, start).unwrap();
    assert_eq!(end, buf.len());
    for cut in 0..end {
        assert!(decode_name(&buf[..cut], start).is_err());
    }
}
