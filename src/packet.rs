use vstd::prelude::*;

use crate::header::{header_wire, valid_flags, Header};
use crate::parser::{many_at, parse_many, Parse, ParseError, Parser};
use crate::question::{Question, QuestionView};
use crate::round_trip::{
    all_valid, lemma_many_round_trip, lemma_many_wire_of_parse, lemma_stands_at_join,
    lemma_stands_at_split, many_canonical_at, RoundTrip,
};
use crate::rr::{ResourceRecord, ResourceRecordView};
use crate::serializer::{
    all_writable, lemma_wrote_stop, lemma_wrote_then, many_wire, serialize_many, Serialize,
    SerializeError, Serializer, MAX_SIZE,
};

verus! {

/// A DNS message (RFC 1035 section 4.1): the header, then the question, answer, authority and
/// additional sections, in that order.
#[derive(Debug, Clone, PartialEq, Eq)]
pub struct Packet {
    pub header: Header,
    pub questions: Vec<Question>,
    pub answers: Vec<ResourceRecord>,
    pub authorities: Vec<ResourceRecord>,
    pub additionals: Vec<ResourceRecord>,
}

/// What a `Packet` holds.
pub struct PacketView {
    pub header: Header,
    pub questions: Seq<QuestionView>,
    pub answers: Seq<ResourceRecordView>,
    pub authorities: Seq<ResourceRecordView>,
    pub additionals: Seq<ResourceRecordView>,
}

impl View for Packet {
    type V = PacketView;

    open spec fn view(&self) -> PacketView {
        PacketView {
            header: self.header,
            questions: self.questions@.map_values(|q: Question| q@),
            answers: self.answers@.map_values(|r: ResourceRecord| r@),
            authorities: self.authorities@.map_values(|r: ResourceRecord| r@),
            additionals: self.additionals@.map_values(|r: ResourceRecord| r@),
        }
    }
}

/// A message on the wire: the header, then each section's entries one after the other.
pub open spec fn packet_wire(m: PacketView) -> Seq<u8> {
    header_wire(m.header) + many_wire::<Question>(m.questions) + many_wire::<ResourceRecord>(m.answers)
        + many_wire::<ResourceRecord>(m.authorities) + many_wire::<ResourceRecord>(m.additionals)
}

/// Whether a message survives being written and read back: its flags are valid, each count in
/// the header is the length of its section, and every entry is valid.
pub open spec fn packet_valid(m: PacketView) -> bool {
    &&& valid_flags(m.header.flags)
    &&& m.header.qdcount == m.questions.len()
    &&& m.header.ancount == m.answers.len()
    &&& m.header.nscount == m.authorities.len()
    &&& m.header.arcount == m.additionals.len()
    &&& all_valid::<Question>(m.questions)
    &&& all_valid::<ResourceRecord>(m.answers)
    &&& all_valid::<ResourceRecord>(m.authorities)
    &&& all_valid::<ResourceRecord>(m.additionals)
}

impl Parse for Packet {
    /// Reads the header, then as many entries for each section as the header announces.
    open spec fn spec_parse(buf: Seq<u8>, pos: int) -> Result<(PacketView, int), ParseError> {
        match Header::spec_parse(buf, pos) {
            Err(e) => Err(e),
            Ok((header, p0)) => match many_at::<Question>(buf, p0, header.qdcount as nat) {
                Err(e) => Err(e),
                Ok((questions, p1)) => match many_at::<ResourceRecord>(buf, p1, header.ancount as nat) {
                    Err(e) => Err(e),
                    Ok((answers, p2)) => match many_at::<ResourceRecord>(
                        buf,
                        p2,
                        header.nscount as nat,
                    ) {
                        Err(e) => Err(e),
                        Ok((authorities, p3)) => match many_at::<ResourceRecord>(
                            buf,
                            p3,
                            header.arcount as nat,
                        ) {
                            Err(e) => Err(e),
                            Ok((additionals, p4)) => Ok(
                                (PacketView { header, questions, answers, authorities, additionals }, p4),
                            ),
                        },
                    },
                },
            },
        }
    }

    fn parse(parser: &mut Parser) -> (r: Result<Packet, ParseError>) {
        let header = Header::parse(parser)?;
        let questions = parse_many::<Question>(parser, header.qdcount)?;
        let answers = parse_many::<ResourceRecord>(parser, header.ancount)?;
        let authorities = parse_many::<ResourceRecord>(parser, header.nscount)?;
        let additionals = parse_many::<ResourceRecord>(parser, header.arcount)?;
        Ok(Packet { header, questions, answers, authorities, additionals })
    }
}

impl Serialize for Packet {
    open spec fn spec_wire(v: PacketView) -> Seq<u8> {
        packet_wire(v)
    }

    open spec fn spec_writable(v: PacketView) -> bool {
        &&& all_writable::<Question>(v.questions)
        &&& all_writable::<ResourceRecord>(v.answers)
        &&& all_writable::<ResourceRecord>(v.authorities)
        &&& all_writable::<ResourceRecord>(v.additionals)
    }

    /// Writes the header as it is, then the sections in order.
    #[verifier::rlimit(60)]
    fn serialize(&self, serializer: &mut Serializer) -> (r: Result<usize, SerializeError>) {
        let ghost s0 = *serializer;
        let ghost v = self@;
        let ghost w0 = header_wire(v.header);
        let ghost w1 = many_wire::<Question>(v.questions);
        let ghost w2 = many_wire::<ResourceRecord>(v.answers);
        let ghost w3 = many_wire::<ResourceRecord>(v.authorities);
        let ghost w4 = many_wire::<ResourceRecord>(v.additionals);
        let ghost ok1 = all_writable::<Question>(v.questions);
        let ghost ok2 = all_writable::<ResourceRecord>(v.answers);
        let ghost ok3 = all_writable::<ResourceRecord>(v.authorities);
        let ghost ok4 = all_writable::<ResourceRecord>(v.additionals);

        let r0 = self.header.serialize(serializer);
        let ghost s1 = *serializer;
        if let Err(e) = r0 {
            proof {
                lemma_wrote_stop(s0, s1, w0, w1 + w2 + w3 + w4, true, ok1 && ok2 && ok3 && ok4, r0);
                assert(w0 + (w1 + w2 + w3 + w4) =~= w0 + w1 + w2 + w3 + w4);
            }
            return Err(e);
        }
        let r1 = serialize_many(&self.questions, serializer);
        let ghost s2 = *serializer;
        proof {
            lemma_wrote_then(s0, s1, s2, w0, w1, true, ok1, r0, r1);
        }
        if let Err(e) = r1 {
            proof {
                lemma_wrote_stop(s0, s2, w0 + w1, w2 + w3 + w4, true && ok1, ok2 && ok3 && ok4, r1);
                assert(w0 + w1 + (w2 + w3 + w4) =~= w0 + w1 + w2 + w3 + w4);
            }
            return Err(e);
        }
        let r2 = serialize_many(&self.answers, serializer);
        let ghost s3 = *serializer;
        proof {
            lemma_wrote_then(s0, s2, s3, w0 + w1, w2, true && ok1, ok2, r1, r2);
        }
        if let Err(e) = r2 {
            proof {
                lemma_wrote_stop(s0, s3, w0 + w1 + w2, w3 + w4, true && ok1 && ok2, ok3 && ok4, r2);
                assert(w0 + w1 + w2 + (w3 + w4) =~= w0 + w1 + w2 + w3 + w4);
            }
            return Err(e);
        }
        let r3 = serialize_many(&self.authorities, serializer);
        let ghost s4 = *serializer;
        proof {
            lemma_wrote_then(s0, s3, s4, w0 + w1 + w2, w3, true && ok1 && ok2, ok3, r2, r3);
        }
        if let Err(e) = r3 {
            proof {
                lemma_wrote_stop(s0, s4, w0 + w1 + w2 + w3, w4, true && ok1 && ok2 && ok3, ok4, r3);
            }
            return Err(e);
        }
        let r4 = serialize_many(&self.additionals, serializer);
        proof {
            lemma_wrote_then(s0, s4, *serializer, w0 + w1 + w2 + w3, w4, true && ok1 && ok2 && ok3, ok4, r3, r4);
        }
        r4
    }
}

impl RoundTrip for Packet {
    open spec fn spec_valid(v: PacketView) -> bool {
        packet_valid(v)
    }

    #[verifier::rlimit(60)]
    proof fn lemma_round_trip(buf: Seq<u8>, pos: int, v: PacketView) {
        let w0 = header_wire(v.header);
        let w1 = many_wire::<Question>(v.questions);
        let w2 = many_wire::<ResourceRecord>(v.answers);
        let w3 = many_wire::<ResourceRecord>(v.authorities);
        let w4 = many_wire::<ResourceRecord>(v.additionals);
        lemma_stands_at_split(buf, pos, w0 + w1 + w2 + w3, w4);
        lemma_stands_at_split(buf, pos, w0 + w1 + w2, w3);
        lemma_stands_at_split(buf, pos, w0 + w1, w2);
        lemma_stands_at_split(buf, pos, w0, w1);
        Header::lemma_round_trip(buf, pos, v.header);
        let p0 = pos + w0.len();
        let p1 = p0 + w1.len();
        let p2 = p1 + w2.len();
        let p3 = p2 + w3.len();
        lemma_many_round_trip::<Question>(buf, p0, v.questions);
        lemma_many_round_trip::<ResourceRecord>(buf, p1, v.answers);
        lemma_many_round_trip::<ResourceRecord>(buf, p2, v.authorities);
        lemma_many_round_trip::<ResourceRecord>(buf, p3, v.additionals);
    }

    /// Each section's entries are written canonically, one after the other.
    open spec fn spec_canonical_at(buf: Seq<u8>, pos: int) -> bool {
        match Header::spec_parse(buf, pos) {
            Err(_) => true,
            Ok((h, p0)) => {
                &&& many_canonical_at::<Question>(buf, p0, h.qdcount as nat)
                &&& match many_at::<Question>(buf, p0, h.qdcount as nat) {
                    Err(_) => true,
                    Ok((_, p1)) => {
                        &&& many_canonical_at::<ResourceRecord>(buf, p1, h.ancount as nat)
                        &&& match many_at::<ResourceRecord>(buf, p1, h.ancount as nat) {
                            Err(_) => true,
                            Ok((_, p2)) => {
                                &&& many_canonical_at::<ResourceRecord>(buf, p2, h.nscount as nat)
                                &&& match many_at::<ResourceRecord>(buf, p2, h.nscount as nat) {
                                    Err(_) => true,
                                    Ok((_, p3)) => many_canonical_at::<ResourceRecord>(
                                        buf,
                                        p3,
                                        h.arcount as nat,
                                    ),
                                }
                            },
                        }
                    },
                }
            },
        }
    }

    #[verifier::rlimit(60)]
    proof fn lemma_wire_of_parse(buf: Seq<u8>, pos: int) {
        Header::lemma_wire_of_parse(buf, pos);
        let (h, p0) = Header::spec_parse(buf, pos)->Ok_0;
        lemma_many_wire_of_parse::<Question>(buf, p0, h.qdcount as nat);
        let (qs, p1) = many_at::<Question>(buf, p0, h.qdcount as nat)->Ok_0;
        lemma_many_wire_of_parse::<ResourceRecord>(buf, p1, h.ancount as nat);
        let (an, p2) = many_at::<ResourceRecord>(buf, p1, h.ancount as nat)->Ok_0;
        lemma_many_wire_of_parse::<ResourceRecord>(buf, p2, h.nscount as nat);
        let (ns, p3) = many_at::<ResourceRecord>(buf, p2, h.nscount as nat)->Ok_0;
        lemma_many_wire_of_parse::<ResourceRecord>(buf, p3, h.arcount as nat);
        let (ar, p4) = many_at::<ResourceRecord>(buf, p3, h.arcount as nat)->Ok_0;
        let w0 = header_wire(h);
        let w1 = many_wire::<Question>(qs);
        let w2 = many_wire::<ResourceRecord>(an);
        let w3 = many_wire::<ResourceRecord>(ns);
        let w4 = many_wire::<ResourceRecord>(ar);
        lemma_stands_at_join(buf, pos, w0, w1);
        lemma_stands_at_join(buf, pos, w0 + w1, w2);
        lemma_stands_at_join(buf, pos, w0 + w1 + w2, w3);
        lemma_stands_at_join(buf, pos, w0 + w1 + w2 + w3, w4);
    }
}

/// Round trip of a message: a valid message can be written, and its bytes read back as the same
/// message, field for field, using up every byte.
pub proof fn lemma_message_round_trip(m: PacketView)
    requires
        packet_valid(m),
    ensures
        Packet::spec_writable(m),
        Packet::spec_parse(packet_wire(m), 0) == Ok::<(PacketView, int), ParseError>(
            (m, packet_wire(m).len() as int),
        ),
{
    let buf = packet_wire(m);
    assert(buf.subrange(0, buf.len() as int) =~= buf);
    Packet::lemma_round_trip(buf, 0, m);
}

/// Round trip of a buffer: a buffer that holds a valid message as this codec writes it reads as a
/// message, and writing that message gives the buffer back byte for byte. (A buffer that uses
/// compression, or carries bytes after the last section, reads fine but is not written back
/// as it was.)
pub proof fn lemma_buffer_round_trip(buf: Seq<u8>, m0: PacketView)
    requires
        packet_valid(m0),
        buf == packet_wire(m0),
    ensures
        Packet::spec_parse(buf, 0) is Ok,
        Packet::spec_parse(buf, 0)->Ok_0.1 == buf.len(),
        packet_wire(Packet::spec_parse(buf, 0)->Ok_0.0) == buf,
        Packet::spec_writable(Packet::spec_parse(buf, 0)->Ok_0.0),
{
    lemma_message_round_trip(m0);
}

/// Re-encoding a decoded buffer: a buffer read as a message, with no bytes after the last section,
/// whose every part is written the way this codec writes it (names in full with no compression
/// pointer, the OPT record's name as the root's zero byte, class IN on records of the types in
/// `Record`, record data that takes up exactly its RDLENGTH), is written back byte for byte.
pub proof fn lemma_canonical_buffer_round_trip(buf: Seq<u8>)
    requires
        Packet::spec_parse(buf, 0) is Ok,
        Packet::spec_parse(buf, 0)->Ok_0.1 == buf.len(),
        Packet::spec_canonical_at(buf, 0),
    ensures
        Packet::spec_writable(Packet::spec_parse(buf, 0)->Ok_0.0),
        packet_wire(Packet::spec_parse(buf, 0)->Ok_0.0) == buf,
{
    Packet::lemma_wire_of_parse(buf, 0);
    assert(buf.subrange(0, buf.len() as int) =~= buf);
}

impl<'a> Parser<'a> {
    /// Reads a whole message from a received buffer. Bytes after the last section are not read;
    /// `Packet::parse` with a `Parser` of one's own shows how many remain.
    pub fn parse(buf: &'a [u8]) -> (r: Result<Packet, ParseError>)
        ensures
            match Packet::spec_parse(buf@, 0) {
                Ok((v, _)) => r is Ok && r->Ok_0@ == v,
                Err(e) => r == Err::<Packet, ParseError>(e),
            },
    {
        let mut parser = Parser::new(buf);
        Packet::parse(&mut parser)
    }
}

impl Serializer {
    /// Writes a whole message into a fresh buffer of `MAX_SIZE` bytes and returns the bytes
    /// written. It fails where a label has an invalid length or the message does not fit.
    pub fn serialize(packet: &Packet) -> (r: Result<Vec<u8>, SerializeError>)
        ensures
            r is Ok <==> Packet::spec_writable(packet@) && packet_wire(packet@).len() <= MAX_SIZE,
            r is Ok ==> r->Ok_0@ == packet_wire(packet@),
            r matches Err(SerializeError::BufferOverflow(_, _)) ==> packet_wire(packet@).len() > MAX_SIZE,
            r matches Err(SerializeError::InvalidLabelLength(_)) ==> !Packet::spec_writable(packet@),
    {
        let mut serializer = Serializer::new();
        let ghost s0 = serializer;
        let r = packet.serialize(&mut serializer);
        proof {
            assert(s0.bytes() + packet_wire(packet@) =~= packet_wire(packet@));
        }
        match r {
            Ok(_) => Ok(serializer.into_bytes()),
            Err(e) => Err(e),
        }
    }
}

} // verus!
