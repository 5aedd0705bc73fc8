use vstd::prelude::*;

use crate::codes::{OpCode, RCode};
use crate::parser::{be_u16, fits, past_end, Parse, ParseError, Parser};
use crate::round_trip::{
    lemma_read_u16, lemma_stands_at_join, lemma_stands_at_split, lemma_write_u16, RoundTrip,
};
use crate::serializer::{u16_bytes, Serialize, SerializeError, Serializer, MAX_SIZE};

verus! {

/// The 16-bit flags word of a header (RFC 1035 section 4.1.1, RFC 2535 section 6.1):
///
/// ```text
///   0  1  2  3  4  5  6  7  8  9 10 11 12 13 14 15
/// +--+--+--+--+--+--+--+--+--+--+--+--+--+--+--+--+
/// |QR|   Opcode  |AA|TC|RD|RA| Z|AD|CD|   RCODE   |
/// +--+--+--+--+--+--+--+--+--+--+--+--+--+--+--+--+
/// ```
///
/// Each one-bit field holds 0 or 1; the opcode and the response code have four bits each.
#[derive(Debug, Clone, Copy, PartialEq, Eq, Structural)]
pub struct Flags {
    pub qr: u8,
    pub opcode: OpCode,
    pub aa: u8,
    pub tc: u8,
    pub rd: u8,
    pub ra: u8,
    pub z: u8,
    pub ad: u8,
    pub cd: u8,
    pub rcode: RCode,
}

/// The fields of the flags word `w`.
pub open spec fn flags_of(w: u16) -> Flags {
    Flags {
        qr: ((w >> 15) & 1) as u8,
        opcode: OpCode::spec_from_u8(((w >> 11) & 0xF) as u8),
        aa: ((w >> 10) & 1) as u8,
        tc: ((w >> 9) & 1) as u8,
        rd: ((w >> 8) & 1) as u8,
        ra: ((w >> 7) & 1) as u8,
        z: ((w >> 6) & 1) as u8,
        ad: ((w >> 5) & 1) as u8,
        cd: ((w >> 4) & 1) as u8,
        rcode: RCode::spec_from_u8((w & 0xF) as u8),
    }
}

/// The flags word of `f`: each field masked to its width and shifted into place.
pub open spec fn flags_word(f: Flags) -> u16 {
    ((f.qr & 1) as u16) << 15u16 | ((f.opcode.spec_to_u8() & 0xF) as u16) << 11u16 | ((f.aa & 1) as u16)
        << 10u16 | ((f.tc & 1) as u16) << 9u16 | ((f.rd & 1) as u16) << 8u16 | ((f.ra & 1) as u16) << 7u16
        | ((f.z & 1) as u16) << 6u16 | ((f.ad & 1) as u16) << 5u16 | ((f.cd & 1) as u16) << 4u16 | ((
    f.rcode.spec_to_u8() & 0xF) as u16)
}

/// Whether the flags survive a trip through the flags word: one-bit fields hold 0 or 1, and the
/// opcode and response code are the ones that their four-bit values read as.
pub open spec fn valid_flags(f: Flags) -> bool {
    &&& f.qr <= 1 && f.aa <= 1 && f.tc <= 1 && f.rd <= 1 && f.ra <= 1
    &&& f.z <= 1 && f.ad <= 1 && f.cd <= 1
    &&& f.opcode.spec_to_u8() < 16 && OpCode::spec_from_u8(f.opcode.spec_to_u8()) == f.opcode
    &&& f.rcode.spec_to_u8() < 16 && RCode::spec_from_u8(f.rcode.spec_to_u8()) == f.rcode
}

impl Flags {
    /// The flags held in two big-endian bytes.
    pub fn from_be_bytes(value: [u8; 2]) -> (r: Flags)
        ensures
            r == flags_of((value[0] as int * 0x100 + value[1] as int) as u16),
    {
        let w: u16 = (value[0] as u16) * 0x100 + value[1] as u16;
        Flags {
            qr: ((w >> 15) & 1) as u8,
            opcode: OpCode::from_u8(((w >> 11) & 0xF) as u8),
            aa: ((w >> 10) & 1) as u8,
            tc: ((w >> 9) & 1) as u8,
            rd: ((w >> 8) & 1) as u8,
            ra: ((w >> 7) & 1) as u8,
            z: ((w >> 6) & 1) as u8,
            ad: ((w >> 5) & 1) as u8,
            cd: ((w >> 4) & 1) as u8,
            rcode: RCode::from_u8((w & 0xF) as u8),
        }
    }

    /// The flags word in two big-endian bytes.
    pub fn to_be_bytes(&self) -> (r: [u8; 2])
        ensures
            r@ == u16_bytes(flags_word(*self)),
    {
        let w: u16 = ((self.qr & 1) as u16) << 15u16 | ((self.opcode.to_u8() & 0xF) as u16) << 11u16 | ((
        self.aa & 1) as u16) << 10u16 | ((self.tc & 1) as u16) << 9u16 | ((self.rd & 1) as u16) << 8u16
            | ((self.ra & 1) as u16) << 7u16 | ((self.z & 1) as u16) << 6u16 | ((self.ad & 1) as u16)
            << 5u16 | ((self.cd & 1) as u16) << 4u16 | ((self.rcode.to_u8() & 0xF) as u16);
        let r: [u8; 2] = [(w / 0x100) as u8, (w % 0x100) as u8];
        proof {
            assert(r@ =~= u16_bytes(flags_word(*self)));
        }
        r
    }
}

/// Reading the flags word of valid flags gives them back, and writing the flags read from a word
/// gives the word back.
pub proof fn lemma_flags_round_trip(f: Flags, w: u16)
    ensures
        valid_flags(f) ==> flags_of(flags_word(f)) == f,
        flags_word(flags_of(w)) == w,
{
    let op = ((w >> 11) & 0xF) as u8;
    let rc = (w & 0xF) as u8;
    crate::codes::lemma_codes_round_trip(0, op);
    crate::codes::lemma_codes_round_trip(0, rc);
    assert(op < 16 && rc < 16) by (bit_vector)
        requires
            op == ((w >> 11) & 0xF) as u8,
            rc == (w & 0xF) as u8,
    ;
    assert(w == ((((w >> 15) & 1) as u8 & 1) as u16) << 15u16 | ((op & 0xF) as u16) << 11u16 | (((
    (w >> 10) & 1) as u8 & 1) as u16) << 10u16 | ((((w >> 9) & 1) as u8 & 1) as u16) << 9u16 | ((((w
        >> 8) & 1) as u8 & 1) as u16) << 8u16 | ((((w >> 7) & 1) as u8 & 1) as u16) << 7u16 | ((((w
        >> 6) & 1) as u8 & 1) as u16) << 6u16 | ((((w >> 5) & 1) as u8 & 1) as u16) << 5u16 | ((((w
        >> 4) & 1) as u8 & 1) as u16) << 4u16 | ((rc & 0xF) as u16)) by (bit_vector)
        requires
            op == ((w >> 11) & 0xF) as u8,
            rc == (w & 0xF) as u8,
    ;
    if valid_flags(f) {
        let word = flags_word(f);
        let o = f.opcode.spec_to_u8();
        let c = f.rcode.spec_to_u8();
        let (qr, aa, tc, rd, ra, z, ad, cd) = (f.qr, f.aa, f.tc, f.rd, f.ra, f.z, f.ad, f.cd);
        assert(((word >> 15) & 1) as u8 == qr && ((word >> 11) & 0xF) as u8 == o && ((word >> 10) & 1) as u8
            == aa && ((word >> 9) & 1) as u8 == tc && ((word >> 8) & 1) as u8 == rd && ((word >> 7) & 1) as u8
            == ra && ((word >> 6) & 1) as u8 == z && ((word >> 5) & 1) as u8 == ad && ((word >> 4) & 1) as u8
            == cd && (word & 0xF) as u8 == c) by (bit_vector)
            requires
                word == ((qr & 1) as u16) << 15u16 | ((o & 0xF) as u16) << 11u16 | ((aa & 1) as u16)
                    << 10u16 | ((tc & 1) as u16) << 9u16 | ((rd & 1) as u16) << 8u16 | ((ra & 1) as u16)
                    << 7u16 | ((z & 1) as u16) << 6u16 | ((ad & 1) as u16) << 5u16 | ((cd & 1) as u16)
                    << 4u16 | ((c & 0xF) as u16),
                qr <= 1 && aa <= 1 && tc <= 1 && rd <= 1 && ra <= 1 && z <= 1 && ad <= 1 && cd <= 1,
                o < 16 && c < 16,
        ;
    }
}

/// The fixed 12-byte section at the start of every message (RFC 1035 section 4.1.1): the
/// transaction ID, the flags and the four section counts. The counts announce how many entries
/// each section has.
#[derive(Debug, Clone, Copy, PartialEq, Eq, Structural)]
pub struct Header {
    pub id: u16,
    pub flags: Flags,
    pub qdcount: u16,
    pub ancount: u16,
    pub nscount: u16,
    pub arcount: u16,
}

impl View for Header {
    type V = Header;

    open spec fn view(&self) -> Header {
        *self
    }
}

/// The 12 bytes of a header on the wire.
pub open spec fn header_wire(h: Header) -> Seq<u8> {
    u16_bytes(h.id) + u16_bytes(flags_word(h.flags)) + u16_bytes(h.qdcount) + u16_bytes(h.ancount)
        + u16_bytes(h.nscount) + u16_bytes(h.arcount)
}

impl Parse for Header {
    open spec fn spec_parse(buf: Seq<u8>, pos: int) -> Result<(Header, int), ParseError> {
        if !fits(buf, pos, 12) {
            Err(past_end(buf, pos))
        } else {
            Ok(
                (
                    Header {
                        id: be_u16(buf, pos),
                        flags: flags_of(be_u16(buf, pos + 2)),
                        qdcount: be_u16(buf, pos + 4),
                        ancount: be_u16(buf, pos + 6),
                        nscount: be_u16(buf, pos + 8),
                        arcount: be_u16(buf, pos + 10),
                    },
                    pos + 12,
                ),
            )
        }
    }

    fn parse(parser: &mut Parser) -> (r: Result<Header, ParseError>) {
        if parser.remaining() < 12 {
            return Err(
                ParseError::BufferOverflow(parser.buffer_len(), parser.buffer_len()),
            );
        }
        let id = parser.consume_u16()?;
        let hi = parser.consume_u8()?;
        let lo = parser.consume_u8()?;
        let flags = Flags::from_be_bytes([hi, lo]);
        let qdcount = parser.consume_u16()?;
        let ancount = parser.consume_u16()?;
        let nscount = parser.consume_u16()?;
        let arcount = parser.consume_u16()?;
        Ok(Header { id, flags, qdcount, ancount, nscount, arcount })
    }
}

impl Serialize for Header {
    open spec fn spec_wire(v: Header) -> Seq<u8> {
        header_wire(v)
    }

    open spec fn spec_writable(v: Header) -> bool {
        true
    }

    fn serialize(&self, serializer: &mut Serializer) -> (r: Result<usize, SerializeError>) {
        if serializer.remaining() < 12 {
            proof {
                assert(serializer.bytes().subrange(0, serializer.bytes().len() as int)
                    =~= serializer.bytes());
            }
            return Err(
                SerializeError::BufferOverflow(serializer.position().saturating_add(12), MAX_SIZE),
            );
        }
        let ghost start = serializer.bytes();
        serializer.write_u16(self.id)?;
        serializer.write_bytes(&self.flags.to_be_bytes())?;
        serializer.write_u16(self.qdcount)?;
        serializer.write_u16(self.ancount)?;
        serializer.write_u16(self.nscount)?;
        serializer.write_u16(self.arcount)?;
        proof {
            assert(serializer.bytes() =~= start + header_wire(*self));
            assert(serializer.bytes().subrange(0, start.len() as int) =~= start);
        }
        Ok(serializer.position())
    }
}

impl RoundTrip for Header {
    open spec fn spec_valid(v: Header) -> bool {
        valid_flags(v.flags)
    }

    proof fn lemma_round_trip(buf: Seq<u8>, pos: int, v: Header) {
        let f = flags_word(v.flags);
        lemma_stands_at_split(buf, pos, u16_bytes(v.id) + u16_bytes(f) + u16_bytes(v.qdcount) + u16_bytes(v.ancount) + u16_bytes(v.nscount), u16_bytes(v.arcount));
        lemma_stands_at_split(buf, pos, u16_bytes(v.id) + u16_bytes(f) + u16_bytes(v.qdcount) + u16_bytes(v.ancount), u16_bytes(v.nscount));
        lemma_stands_at_split(buf, pos, u16_bytes(v.id) + u16_bytes(f) + u16_bytes(v.qdcount), u16_bytes(v.ancount));
        lemma_stands_at_split(buf, pos, u16_bytes(v.id) + u16_bytes(f), u16_bytes(v.qdcount));
        lemma_stands_at_split(buf, pos, u16_bytes(v.id), u16_bytes(f));
        lemma_read_u16(buf, pos, v.id);
        lemma_read_u16(buf, pos + 2, f);
        lemma_read_u16(buf, pos + 4, v.qdcount);
        lemma_read_u16(buf, pos + 6, v.ancount);
        lemma_read_u16(buf, pos + 8, v.nscount);
        lemma_read_u16(buf, pos + 10, v.arcount);
        lemma_flags_round_trip(v.flags, f);
    }

    open spec fn spec_canonical_at(buf: Seq<u8>, pos: int) -> bool {
        true
    }

    proof fn lemma_wire_of_parse(buf: Seq<u8>, pos: int) {
        let h = Self::spec_parse(buf, pos)->Ok_0.0;
        lemma_flags_round_trip(h.flags, be_u16(buf, pos + 2));
        lemma_write_u16(buf, pos);
        lemma_write_u16(buf, pos + 2);
        lemma_write_u16(buf, pos + 4);
        lemma_write_u16(buf, pos + 6);
        lemma_write_u16(buf, pos + 8);
        lemma_write_u16(buf, pos + 10);
        lemma_stands_at_join(buf, pos, u16_bytes(h.id), u16_bytes(flags_word(h.flags)));
        lemma_stands_at_join(buf, pos, u16_bytes(h.id) + u16_bytes(flags_word(h.flags)), u16_bytes(h.qdcount));
        lemma_stands_at_join(buf, pos, u16_bytes(h.id) + u16_bytes(flags_word(h.flags)) + u16_bytes(h.qdcount), u16_bytes(h.ancount));
        lemma_stands_at_join(buf, pos, u16_bytes(h.id) + u16_bytes(flags_word(h.flags)) + u16_bytes(h.qdcount) + u16_bytes(h.ancount), u16_bytes(h.nscount));
        lemma_stands_at_join(buf, pos, u16_bytes(h.id) + u16_bytes(flags_word(h.flags)) + u16_bytes(h.qdcount) + u16_bytes(h.ancount) + u16_bytes(h.nscount), u16_bytes(h.arcount));
    }
}

} // verus!
