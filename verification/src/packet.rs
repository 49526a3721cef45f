//! A message as an owned byte buffer whose first twelve bytes are the header.

use crate::consts::{
    AA, ANCOUNT_OFFSET, ARCOUNT_OFFSET, CLASS_IN, FLAGS_OFFSET, HEADER_LENGTH, ID_OFFSET,
    MAX_UDP_LENGTH, NSCOUNT_OFFSET, OPCODE_MASK, OPCODE_SHIFT, QDCOUNT_OFFSET, QR, RA,
    RCODE_MASK, RD, TC, TYPE_A, Z_MASK, Z_SHIFT,
};
use crate::error::CodecError;
use crate::header::{
    flag_is_set, header_of, is_flag_bit, lemma_header_slot_store, lemma_with_flag_isolated,
    lemma_with_opcode_isolated, lemma_with_rcode_isolated, opcode_of, rcode_of, with_flag,
    with_opcode, with_rcode, z_of, Header,
};
use crate::name::lemma_wire_length;
use crate::question::{encode_question_spec, Question, QuestionView};
use crate::wire::{hi_byte, lo_byte, read_u16, u16_at, with_u16_at, write_u16};
use rand::Rng;
use vstd::prelude::*;
use vstd::slice::slice_to_vec;
use vstd::string::StringSliceAdditionalSpecFns;

verus! {

/// A message in wire form. The buffer always holds a full header; the header
/// fields are read from and written to it in place.
#[derive(Debug)]
pub struct Packet {
    buf: Vec<u8>,
}

impl View for Packet {
    type V = Seq<u8>;

    closed spec fn view(&self) -> Seq<u8> {
        self.buf@
    }
}

/// The header of a fresh query: the identifier, then a flags word with
/// only RD set, a question count of one and three counts of zero.
pub open spec fn query_header(id: u16) -> Seq<u8> {
    seq![hi_byte(id), lo_byte(id), 0x01u8, 0u8, 0u8, 0x01u8, 0u8, 0u8, 0u8, 0u8, 0u8, 0u8]
}

/// The bytes of a query for the host addresses of `name`: the query header
/// and one question; or the error that encoding the name gives.
pub open spec fn query_spec(id: u16, name: Seq<u8>) -> Result<Seq<u8>, CodecError> {
    match encode_question_spec(QuestionView { name, qtype: TYPE_A, qclass: CLASS_IN }) {
        Ok(wire) => Ok(query_header(id) + wire),
        Err(e) => Err(e),
    }
}

/// The header of a fresh query reads as a standard query with recursion
/// desired and one question, whatever follows it.
pub proof fn lemma_query_header_fields(id: u16, rest: Seq<u8>)
    ensures
        header_of(query_header(id) + rest) == (Header {
            id,
            is_query: true,
            opcode: 0,
            authoritative: false,
            truncated: false,
            recursion_desired: true,
            recursion_available: false,
            z: 0,
            rcode: 0,
            qdcount: 1,
            ancount: 0,
            nscount: 0,
            arcount: 0,
        }),
{
    let bytes = query_header(id) + rest;
    assert(bytes[0] == hi_byte(id) && bytes[1] == lo_byte(id));
    assert(bytes[2] == 1u8 && bytes[3] == 0u8 && bytes[4] == 0u8 && bytes[5] == 1u8);
    assert(bytes[6] == 0u8 && bytes[7] == 0u8 && bytes[8] == 0u8 && bytes[9] == 0u8);
    assert(bytes[10] == 0u8 && bytes[11] == 0u8);
    let flags = u16_at(bytes, FLAGS_OFFSET as int);
    assert(flags == 0x0100);
    assert(!flag_is_set(flags, QR) && opcode_of(flags) == 0 && !flag_is_set(flags, AA)
        && !flag_is_set(flags, TC) && flag_is_set(flags, RD) && !flag_is_set(flags, RA) && z_of(
        flags,
    ) == 0 && rcode_of(flags) == 0) by (bit_vector)
        requires
            flags == 0x0100,
    ;
}

/// The one-line summary of a header and a message length, as `format!`
/// writes it.
pub uninterp spec fn summary_text(header: Header, length: usize) -> Seq<char>;

/// Calls `format!` on the identifier, the five flags and the opcode, the
/// four counts and the length, each written with `{}`. The contract only
/// names the text: it claims that equal values give equal text.
#[verifier::external_body]
fn format_summary(header: Header, length: usize) -> (text: String)
    ensures
        text@ == summary_text(header, length),
{
    format!(
        "{{id: {}, qr: {}, aa: {}, tc: {}, rd: {}, ra: {}, opcode: {}, qdcount: {}, ancount: {}, nscount: {}, arcount: {}, length: {}}}",
        header.id, header.is_query, header.authoritative, header.truncated,
        header.recursion_desired, header.recursion_available, header.opcode,
        header.qdcount, header.ancount, header.nscount, header.arcount, length
    )
}

/// Calls `rand::thread_rng` and, on the generator it returns,
/// `rand::Rng::gen` for a `u16`. The value is random, so nothing is claimed
/// of it.
#[verifier::external_body]
fn random_id() -> (id: u16) {
    rand::thread_rng().gen::<u16>()
}

impl Packet {
    #[verifier::type_invariant]
    spec fn holds_header(self) -> bool {
        self.buf@.len() >= HEADER_LENGTH
    }

    /// A header of twelve zero bytes and nothing after it.
    fn new() -> (packet: Packet)
        ensures
            packet@ == Seq::new(HEADER_LENGTH as nat, |i: int| 0u8),
    {
        let mut buf: Vec<u8> = Vec::new();
        let mut filled: usize = 0;
        while filled < HEADER_LENGTH
            invariant
                filled <= HEADER_LENGTH,
                buf@ == Seq::new(filled as nat, |i: int| 0u8),
            decreases HEADER_LENGTH - filled,
        {
            buf.push(0u8);
            filled = filled + 1;
        }
        Packet { buf }
    }

    /// A query for the host addresses of `query` with a random identifier:
    /// direction query, opcode 0, recursion desired, one question.
    ///
    /// Fails exactly when the name cannot be encoded, with the error that
    /// encoding it gives. Otherwise the result is the query that
    /// `query_with_id` builds for the identifier found in its header.
    pub fn new_query(query: &str) -> (result: Result<Packet, CodecError>)
        ensures
            match encode_question_spec(
                QuestionView { name: query.spec_bytes(), qtype: TYPE_A, qclass: CLASS_IN },
            ) {
                Ok(_) => result is Ok && query_spec(
                    header_of(result->Ok_0@).id,
                    query.spec_bytes(),
                ) == Ok::<Seq<u8>, CodecError>(result->Ok_0@),
                Err(e) => result is Err && result->Err_0 == e,
            },
    {
        Packet::query_with_id(random_id(), query)
    }

    /// A query for the host addresses of `query` with the identifier `id`:
    /// direction query, opcode 0, recursion desired, every other flag
    /// clear, and one question of type A and class IN.
    ///
    /// Fails with `LabelTooLong` exactly when a label of the name has more
    /// than 63 bytes, and with `NameTooLong` exactly when no label is too
    /// long and the wire form of the name would have more than 255 bytes.
    pub fn query_with_id(id: u16, query: &str) -> (result: Result<Packet, CodecError>)
        ensures
            match query_spec(id, query.spec_bytes()) {
                Ok(bytes) => result is Ok && result->Ok_0@ == bytes && bytes.len()
                    <= MAX_UDP_LENGTH,
                Err(e) => result is Err && result->Err_0 == e,
            },
            result is Ok ==> header_of(result->Ok_0@) == (Header {
                id,
                is_query: true,
                opcode: 0,
                authoritative: false,
                truncated: false,
                recursion_desired: true,
                recursion_available: false,
                z: 0,
                rcode: 0,
                qdcount: 1,
                ancount: 0,
                nscount: 0,
                arcount: 0,
            }),
    {
        let mut packet = Packet::new();
        let ghost blank = packet@;
        packet.set_id(id);
        packet.set_query(true);
        packet.set_opcode(0);
        packet.set_recursion_desired(true);
        proof {
            assert(blank[2] == 0u8 && blank[3] == 0u8);
            assert(u16_at(blank, FLAGS_OFFSET as int) == 0);
            assert(u16_at(with_u16_at(blank, ID_OFFSET as int, id), FLAGS_OFFSET as int) == 0);
            assert(with_flag(0u16, QR, false) == 0 && with_opcode(0u16, 0u8) == 0 && with_flag(
                0u16,
                RD,
                true,
            ) == 0x0100) by (bit_vector);
            assert(packet@ =~= seq![
                hi_byte(id),
                lo_byte(id),
                0x01u8,
                0u8,
                0u8,
                0u8,
                0u8,
                0u8,
                0u8,
                0u8,
                0u8,
                0u8,
            ]);
            assert(header_of(packet@).qdcount == 0);
        }
        let ghost before = packet@;
        let question = Question::new(query);
        match packet.add_question(question) {
            Ok(()) => {
                proof {
                    let wire = encode_question_spec(question@)->Ok_0;
                    lemma_wire_length(query.spec_bytes());
                    assert(with_u16_at(before, QDCOUNT_OFFSET as int, 1u16) =~= query_header(id));
                    assert(packet@ == query_header(id) + wire);
                    lemma_query_header_fields(id, wire);
                }
                Ok(packet)
            },
            Err(e) => Err(e),
        }
    }

    /// Appends `question` behind the bytes of the message and counts it in
    /// the header. The caller sees to it that the question count can still
    /// grow and that no other section follows the questions.
    ///
    /// Fails exactly when the name of the question cannot be encoded, with
    /// the error that encoding it gives, and then leaves the message as it
    /// was.
    pub fn add_question(&mut self, question: Question) -> (result: Result<(), CodecError>)
        requires
            header_of(old(self)@).qdcount < u16::MAX,
        ensures
            match encode_question_spec(question@) {
                Ok(wire) => result is Ok && final(self)@ == with_u16_at(
                    old(self)@,
                    QDCOUNT_OFFSET as int,
                    (header_of(old(self)@).qdcount + 1) as u16,
                ) + wire,
                Err(e) => result == Err::<(), CodecError>(e) && final(self)@ == old(self)@,
            },
    {
        proof {
            use_type_invariant(&*self);
        }
        match question.encode() {
            Ok(wire) => {
                let count: u16 = self.qdcount();
                let mut buf: Vec<u8> = slice_to_vec(self.buf.as_slice());
                write_u16(&mut buf, QDCOUNT_OFFSET, count + 1);
                buf.extend_from_slice(wire.as_slice());
                self.buf = buf;
                Ok(())
            },
            Err(e) => Err(e),
        }
    }

    /// Takes over a received buffer. Fails with `TruncatedHeader` exactly
    /// when the buffer is shorter than a header.
    pub fn from_bytes(buf: Vec<u8>) -> (result: Result<Packet, CodecError>)
        ensures
            buf@.len() >= HEADER_LENGTH ==> result is Ok && result->Ok_0@ == buf@,
            buf@.len() < HEADER_LENGTH ==> result == Err::<Packet, CodecError>(
                CodecError::TruncatedHeader,
            ),
    {
        if buf.len() < HEADER_LENGTH {
            Err(CodecError::TruncatedHeader)
        } else {
            Ok(Packet { buf })
        }
    }

    /// The bytes of the message, header first.
    pub fn buf(&self) -> (bytes: &[u8])
        ensures
            bytes@ == self@,
            bytes@.len() >= HEADER_LENGTH,
    {
        proof {
            use_type_invariant(self);
        }
        self.buf.as_slice()
    }

    /// One line of text that shows the identifier, the flags, the opcode,
    /// the four counts and the number of bytes of the message.
    pub fn summary(&self) -> (text: String)
        ensures
            text@ == summary_text(header_of(self@), self@.len() as usize),
    {
        proof {
            use_type_invariant(self);
        }
        format_summary(self.header(), self.buf.len())
    }

    /// All header fields at once.
    pub fn header(&self) -> (header: Header)
        ensures
            header == header_of(self@),
    {
        Header {
            id: self.id(),
            is_query: self.is_query(),
            opcode: self.opcode(),
            authoritative: self.is_authoritative(),
            truncated: self.is_truncated(),
            recursion_desired: self.is_recursion_desired(),
            recursion_available: self.is_recursion_available(),
            z: self.z(),
            rcode: self.rcode(),
            qdcount: self.qdcount(),
            ancount: self.ancount(),
            nscount: self.nscount(),
            arcount: self.arcount(),
        }
    }

    fn slot(&self, at: usize) -> (value: u16)
        requires
            at + 2 <= HEADER_LENGTH,
        ensures
            value == u16_at(self@, at as int),
    {
        proof {
            use_type_invariant(self);
        }
        read_u16(self.buf.as_slice(), at)
    }

    fn set_slot(&mut self, at: usize, value: u16)
        requires
            at + 2 <= HEADER_LENGTH,
        ensures
            final(self)@ == with_u16_at(old(self)@, at as int, value),
            final(self)@.len() >= HEADER_LENGTH,
    {
        proof {
            use_type_invariant(&*self);
        }
        write_u16(&mut self.buf, at, value);
    }

    pub fn id(&self) -> (id: u16)
        ensures
            id == header_of(self@).id,
    {
        self.slot(ID_OFFSET)
    }

    /// Stores the transaction identifier; every other field and all bytes
    /// after the header stay as they were.
    pub fn set_id(&mut self, id: u16)
        ensures
            final(self)@ == with_u16_at(old(self)@, ID_OFFSET as int, id),
            header_of(final(self)@) == (Header { id, ..header_of(old(self)@) }),
    {
        proof {
            use_type_invariant(&*self);
            lemma_header_slot_store(self@, ID_OFFSET as int, id);
        }
        self.set_slot(ID_OFFSET, id);
    }

    /// The packed flags word.
    pub fn flags(&self) -> (flags: u16)
        ensures
            flags == u16_at(self@, FLAGS_OFFSET as int),
    {
        self.slot(FLAGS_OFFSET)
    }

    fn set_flags(&mut self, flags: u16)
        ensures
            final(self)@ == with_u16_at(old(self)@, FLAGS_OFFSET as int, flags),
            u16_at(final(self)@, FLAGS_OFFSET as int) == flags,
            header_of(final(self)@).id == header_of(old(self)@).id,
            header_of(final(self)@).qdcount == header_of(old(self)@).qdcount,
            header_of(final(self)@).ancount == header_of(old(self)@).ancount,
            header_of(final(self)@).nscount == header_of(old(self)@).nscount,
            header_of(final(self)@).arcount == header_of(old(self)@).arcount,
    {
        proof {
            use_type_invariant(&*self);
            lemma_header_slot_store(self@, FLAGS_OFFSET as int, flags);
        }
        self.set_slot(FLAGS_OFFSET, flags);
    }

    fn flag(&self, mask: u16) -> (on: bool)
        ensures
            on == flag_is_set(u16_at(self@, FLAGS_OFFSET as int), mask),
    {
        self.flags() & mask == mask
    }

    fn set_flag(&mut self, mask: u16, on: bool)
        requires
            is_flag_bit(mask),
        ensures
            final(self)@ == with_u16_at(
                old(self)@,
                FLAGS_OFFSET as int,
                with_flag(u16_at(old(self)@, FLAGS_OFFSET as int), mask, on),
            ),
            header_of(final(self)@) == (Header {
                is_query: if mask == QR {
                    !on
                } else {
                    header_of(old(self)@).is_query
                },
                authoritative: if mask == AA {
                    on
                } else {
                    header_of(old(self)@).authoritative
                },
                truncated: if mask == TC {
                    on
                } else {
                    header_of(old(self)@).truncated
                },
                recursion_desired: if mask == RD {
                    on
                } else {
                    header_of(old(self)@).recursion_desired
                },
                recursion_available: if mask == RA {
                    on
                } else {
                    header_of(old(self)@).recursion_available
                },
                ..header_of(old(self)@)
            }),
    {
        let flags: u16 = self.flags();
        proof {
            lemma_with_flag_isolated(flags, mask, on);
        }
        let updated: u16 = if on {
            flags | mask
        } else {
            flags & !mask
        };
        self.set_flags(updated);
    }

    /// Whether the message is a query, that is, whether QR is clear.
    pub fn is_query(&self) -> (is_query: bool)
        ensures
            is_query == header_of(self@).is_query,
    {
        !self.flag(QR)
    }

    /// Marks the message as a query (QR clear) or as a response (QR set);
    /// every other field and all bytes after the header stay as they were.
    pub fn set_query(&mut self, is_query: bool)
        ensures
            final(self)@ == with_u16_at(
                old(self)@,
                FLAGS_OFFSET as int,
                with_flag(u16_at(old(self)@, FLAGS_OFFSET as int), QR, !is_query),
            ),
            header_of(final(self)@) == (Header { is_query, ..header_of(old(self)@) }),
    {
        self.set_flag(QR, !is_query);
    }

    pub fn opcode(&self) -> (opcode: u8)
        ensures
            opcode == header_of(self@).opcode,
            opcode < 16,
    {
        let flags: u16 = self.flags();
        assert(opcode_of(flags) < 16) by (bit_vector);
        ((flags & OPCODE_MASK) >> OPCODE_SHIFT) as u8
    }

    /// Stores the low four bits of `opcode`; every other field and all bytes
    /// after the header stay as they were.
    pub fn set_opcode(&mut self, opcode: u8)
        ensures
            final(self)@ == with_u16_at(
                old(self)@,
                FLAGS_OFFSET as int,
                with_opcode(u16_at(old(self)@, FLAGS_OFFSET as int), opcode),
            ),
            header_of(final(self)@) == (Header { opcode: opcode & 0x0F, ..header_of(old(self)@) }),
    {
        let flags: u16 = self.flags();
        proof {
            lemma_with_opcode_isolated(flags, opcode);
        }
        let updated: u16 = (flags & !OPCODE_MASK) | (((opcode as u16) << OPCODE_SHIFT) & OPCODE_MASK);
        self.set_flags(updated);
    }

    pub fn is_authoritative(&self) -> (on: bool)
        ensures
            on == header_of(self@).authoritative,
    {
        self.flag(AA)
    }

    /// Sets or clears AA; every other field and all bytes after the header
    /// stay as they were.
    pub fn set_authoritative(&mut self, is_authoritative: bool)
        ensures
            final(self)@ == with_u16_at(
                old(self)@,
                FLAGS_OFFSET as int,
                with_flag(u16_at(old(self)@, FLAGS_OFFSET as int), AA, is_authoritative),
            ),
            header_of(final(self)@) == (Header {
                authoritative: is_authoritative,
                ..header_of(old(self)@)
            }),
    {
        self.set_flag(AA, is_authoritative);
    }

    pub fn is_truncated(&self) -> (on: bool)
        ensures
            on == header_of(self@).truncated,
    {
        self.flag(TC)
    }

    /// Sets or clears TC; every other field and all bytes after the header
    /// stay as they were.
    pub fn set_truncated(&mut self, is_truncated: bool)
        ensures
            final(self)@ == with_u16_at(
                old(self)@,
                FLAGS_OFFSET as int,
                with_flag(u16_at(old(self)@, FLAGS_OFFSET as int), TC, is_truncated),
            ),
            header_of(final(self)@) == (Header { truncated: is_truncated, ..header_of(old(self)@) }),
    {
        self.set_flag(TC, is_truncated);
    }

    pub fn is_recursion_desired(&self) -> (on: bool)
        ensures
            on == header_of(self@).recursion_desired,
    {
        self.flag(RD)
    }

    /// Sets or clears RD; every other field and all bytes after the header
    /// stay as they were.
    pub fn set_recursion_desired(&mut self, is_recursion_desired: bool)
        ensures
            final(self)@ == with_u16_at(
                old(self)@,
                FLAGS_OFFSET as int,
                with_flag(u16_at(old(self)@, FLAGS_OFFSET as int), RD, is_recursion_desired),
            ),
            header_of(final(self)@) == (Header {
                recursion_desired: is_recursion_desired,
                ..header_of(old(self)@)
            }),
    {
        self.set_flag(RD, is_recursion_desired);
    }

    pub fn is_recursion_available(&self) -> (on: bool)
        ensures
            on == header_of(self@).recursion_available,
    {
        self.flag(RA)
    }

    /// Sets or clears RA; every other field and all bytes after the header
    /// stay as they were.
    pub fn set_recursion_available(&mut self, is_recursion_available: bool)
        ensures
            final(self)@ == with_u16_at(
                old(self)@,
                FLAGS_OFFSET as int,
                with_flag(u16_at(old(self)@, FLAGS_OFFSET as int), RA, is_recursion_available),
            ),
            header_of(final(self)@) == (Header {
                recursion_available: is_recursion_available,
                ..header_of(old(self)@)
            }),
    {
        self.set_flag(RA, is_recursion_available);
    }

    /// The three reserved bits.
    pub fn z(&self) -> (z: u8)
        ensures
            z == header_of(self@).z,
            z < 8,
    {
        let flags: u16 = self.flags();
        assert(z_of(flags) < 8) by (bit_vector);
        ((flags & Z_MASK) >> Z_SHIFT) as u8
    }

    pub fn rcode(&self) -> (rcode: u8)
        ensures
            rcode == header_of(self@).rcode,
            rcode < 16,
    {
        let flags: u16 = self.flags();
        assert(rcode_of(flags) < 16) by (bit_vector);
        (flags & RCODE_MASK) as u8
    }

    /// Stores the low four bits of `rcode`; every other field and all bytes
    /// after the header stay as they were.
    pub fn set_rcode(&mut self, rcode: u8)
        ensures
            final(self)@ == with_u16_at(
                old(self)@,
                FLAGS_OFFSET as int,
                with_rcode(u16_at(old(self)@, FLAGS_OFFSET as int), rcode),
            ),
            header_of(final(self)@) == (Header { rcode: rcode & 0x0F, ..header_of(old(self)@) }),
    {
        let flags: u16 = self.flags();
        proof {
            lemma_with_rcode_isolated(flags, rcode);
        }
        let updated: u16 = (flags & !RCODE_MASK) | ((rcode as u16) & RCODE_MASK);
        self.set_flags(updated);
    }

    pub fn qdcount(&self) -> (count: u16)
        ensures
            count == header_of(self@).qdcount,
    {
        self.slot(QDCOUNT_OFFSET)
    }

    /// Stores the question count; every other field and all bytes after the
    /// header stay as they were.
    pub fn set_qdcount(&mut self, qdcount: u16)
        ensures
            final(self)@ == with_u16_at(old(self)@, QDCOUNT_OFFSET as int, qdcount),
            header_of(final(self)@) == (Header { qdcount, ..header_of(old(self)@) }),
    {
        proof {
            use_type_invariant(&*self);
            lemma_header_slot_store(self@, QDCOUNT_OFFSET as int, qdcount);
        }
        self.set_slot(QDCOUNT_OFFSET, qdcount);
    }

    pub fn ancount(&self) -> (count: u16)
        ensures
            count == header_of(self@).ancount,
    {
        self.slot(ANCOUNT_OFFSET)
    }

    /// Stores the answer count; every other field and all bytes after the
    /// header stay as they were.
    pub fn set_ancount(&mut self, ancount: u16)
        ensures
            final(self)@ == with_u16_at(old(self)@, ANCOUNT_OFFSET as int, ancount),
            header_of(final(self)@) == (Header { ancount, ..header_of(old(self)@) }),
    {
        proof {
            use_type_invariant(&*self);
            lemma_header_slot_store(self@, ANCOUNT_OFFSET as int, ancount);
        }
        self.set_slot(ANCOUNT_OFFSET, ancount);
    }

    pub fn nscount(&self) -> (count: u16)
        ensures
            count == header_of(self@).nscount,
    {
        self.slot(NSCOUNT_OFFSET)
    }

    /// Stores the authority count; every other field and all bytes after the
    /// header stay as they were.
    pub fn set_nscount(&mut self, nscount: u16)
        ensures
            final(self)@ == with_u16_at(old(self)@, NSCOUNT_OFFSET as int, nscount),
            header_of(final(self)@) == (Header { nscount, ..header_of(old(self)@) }),
    {
        proof {
            use_type_invariant(&*self);
            lemma_header_slot_store(self@, NSCOUNT_OFFSET as int, nscount);
        }
        self.set_slot(NSCOUNT_OFFSET, nscount);
    }

    pub fn arcount(&self) -> (count: u16)
        ensures
            count == header_of(self@).arcount,
    {
        self.slot(ARCOUNT_OFFSET)
    }

    /// Stores the additional count; every other field and all bytes after
    /// the header stay as they were.
    pub fn set_arcount(&mut self, arcount: u16)
        ensures
            final(self)@ == with_u16_at(old(self)@, ARCOUNT_OFFSET as int, arcount),
            header_of(final(self)@) == (Header { arcount, ..header_of(old(self)@) }),
    {
        proof {
            use_type_invariant(&*self);
            lemma_header_slot_store(self@, ARCOUNT_OFFSET as int, arcount);
        }
        self.set_slot(ARCOUNT_OFFSET, arcount);
    }
}

} // verus!
