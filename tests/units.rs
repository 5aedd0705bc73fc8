use dns::header::Flags;
use dns::rr::Option as EdnsOption;
use dns::{
    Class, DomainName, Header, OpCode, OptionCode, Packet, Parse, ParseError, Parser, RCode, Record,
    ResourceRecord, Serialize, SerializeError, Serializer, Type,
};

fn name(labels: &[&str]) -> DomainName {
    DomainName { labels: labels.iter().map(|l| l.as_bytes().to_vec()).collect() }
}

#[test]
fn cursor_reads_big_endian() {
    let buf = [1, 2, 3, 4, 5, 6, 7];
    let mut p = Parser::new(&buf);
    assert_eq!(p.read_u8().unwrap(), 1);
    assert_eq!(p.position(), 0);
    assert_eq!(p.consume_u8().unwrap(), 1);
    assert_eq!(p.consume_u16().unwrap(), 0x0203);
    assert_eq!(p.consume_u32().unwrap(), 0x04050607);
    assert_eq!(p.remaining(), 0);
    assert_eq!(p.consume_u8().unwrap_err(), ParseError::BufferOverflow(7, 7));
    assert_eq!(p.read_u8().unwrap_err(), ParseError::BufferOverflow(7, 7));
    assert_eq!(p.position(), 7);
}

#[test]
fn cursor_bounds() {
    let buf = [9, 8, 7];
    let mut p = Parser::new(&buf);
    assert_eq!(p.consume_u32().unwrap_err(), ParseError::BufferOverflow(3, 3));
    assert_eq!(p.position(), 0);
    assert_eq!(p.consume_bytes(2).unwrap(), &[9, 8][..]);
    assert_eq!(p.consume_bytes(2).unwrap_err(), ParseError::BufferOverflow(4, 3));
    assert_eq!(p.position(), 2);
    assert_eq!(p.consume_u16().unwrap_err(), ParseError::BufferOverflow(3, 3));
    assert_eq!(p.position(), 2);
    assert!(p.seek(3).is_ok());
    assert_eq!(p.remaining(), 0);
    assert_eq!(p.read_u8().unwrap_err(), ParseError::BufferOverflow(3, 3));
    assert_eq!(p.consume_u32().unwrap_err(), ParseError::BufferOverflow(3, 3));
    assert_eq!(p.seek(4).unwrap_err(), ParseError::BufferOverflow(3, 3));
    assert!(p.seek(0).is_ok());
    assert_eq!(p.remaining(), 3);
    assert_eq!(p.buffer_len(), 3);
}

#[test]
fn writer_appends_big_endian() {
    let mut s = Serializer::new();
    assert_eq!(s.remaining(), 4096);
    s.write_u8(1).unwrap();
    s.write_u16(0x0203).unwrap();
    s.write_u32(0x04050607).unwrap();
    s.write_bytes(&[8, 9]).unwrap();
    assert_eq!(s.position(), 9);
    assert_eq!(s.remaining(), 4096 - 9);
    assert_eq!(s.into_bytes(), vec![1, 2, 3, 4, 5, 6, 7, 8, 9]);
}

#[test]
fn writer_capacity_is_exact() {
    let mut s = Serializer::new();
    s.write_bytes(&[0u8; 4095]).unwrap();
    assert_eq!(s.write_u16(1).unwrap_err(), SerializeError::BufferOverflow(4097, 4096));
    assert_eq!(s.write_u32(1).unwrap_err(), SerializeError::BufferOverflow(4099, 4096));
    s.write_u8(7).unwrap();
    assert_eq!(s.remaining(), 0);
    assert_eq!(s.write_u8(1).unwrap_err(), SerializeError::BufferOverflow(4097, 4096));
    assert_eq!(s.write_bytes(&[1, 2]).unwrap_err(), SerializeError::BufferOverflow(4098, 4096));
    assert_eq!(s.position(), 4096);
    assert_eq!(s.as_bytes()[4095], 7);
}

#[test]
fn name_size_counts_length_bytes() {
    assert_eq!(name(&["example", "com"]).size(), 12);
    assert_eq!(name(&[]).size(), 0);
}

#[test]
fn name_is_written_uncompressed() {
    let mut s = Serializer::new();
    let end = name(&["ab", "c"]).serialize(&mut s).unwrap();
    assert_eq!(end, 6);
    assert_eq!(s.as_bytes(), &[2, b'a', b'b', 1, b'c', 0][..]);
}

#[test]
fn overlong_label_is_not_written() {
    let long = "x".repeat(64);
    let mut s = Serializer::new();
    assert_eq!(name(&[&long]).serialize(&mut s).unwrap_err(), SerializeError::InvalidLabelLength(64));
    let mut s = Serializer::new();
    assert_eq!(name(&["a", ""]).serialize(&mut s).unwrap_err(), SerializeError::InvalidLabelLength(0));
}

#[test]
fn message_too_large_overflows() {
    let packet = Packet {
        header: Header {
            id: 1,
            flags: Flags::from_be_bytes([0x81, 0x80]),
            qdcount: 0,
            ancount: 1,
            nscount: 0,
            arcount: 0,
        },
        questions: vec![],
        answers: vec![ResourceRecord::Record {
            name: name(&["big"]),
            ttl: 0,
            data: Record::TXT { text: vec![b'z'; 5000] },
        }],
        authorities: vec![],
        additionals: vec![],
    };
    assert!(matches!(Serializer::serialize(&packet), Err(SerializeError::BufferOverflow(_, 4096))));
}

#[test]
fn utf8_labels() {
    let mut buf = vec![2, 0xC3, 0xA9, 0];
    let mut p = Parser::new(&buf);
    assert_eq!(DomainName::parse(&mut p).unwrap().labels, vec![vec![0xC3, 0xA9]]);
    buf[2] = 0x28;
    let mut p = Parser::new(&buf);
    assert_eq!(DomainName::parse(&mut p).unwrap_err(), ParseError::InvalidUtf8);
}

#[test]
fn reserved_label_length_is_refused() {
    let buf = [0x80, 0];
    let mut p = Parser::new(&buf);
    assert_eq!(DomainName::parse(&mut p).unwrap_err(), ParseError::InvalidLabelLength(0x80));
}

#[test]
fn pointer_loop_is_detected() {
    let buf = [0xC0, 0];
    let mut p = Parser::new(&buf);
    assert_eq!(DomainName::parse(&mut p).unwrap_err(), ParseError::CompressionLoop);
}

#[test]
fn pointer_past_buffer_end_fails_seek() {
    let buf = [1, b'a', 0xC0, 9];
    let mut p = Parser::new(&buf);
    assert_eq!(DomainName::parse(&mut p).unwrap_err(), ParseError::BufferOverflow(4, 4));
}

#[test]
fn a_record_with_wrong_length_is_a_format_error() {
    let mut buf = vec![0, 0, 0, 0, 0, 0, 0, 1, 0, 0, 0, 0];
    buf.extend_from_slice(&[0, 0, 1, 0, 1, 0, 0, 0, 0, 0, 5, 1, 2, 3, 4, 5]);
    assert_eq!(Parser::parse(&buf).unwrap_err(), ParseError::FormatError);
}

#[test]
fn a_record_longer_than_the_buffer_overflows() {
    let mut buf = vec![0, 0, 0, 0, 0, 0, 0, 1, 0, 0, 0, 0];
    buf.extend_from_slice(&[0, 0, 1, 0, 1, 0, 0, 0, 0, 0, 16, 1, 2, 3, 4, 5]);
    assert_eq!(Parser::parse(&buf).unwrap_err(), ParseError::BufferOverflow(39, 28));
}

#[test]
fn aaaa_record_with_wrong_length_is_a_format_error() {
    let mut buf = vec![0, 0, 0, 0, 0, 0, 0, 1, 0, 0, 0, 0];
    buf.extend_from_slice(&[0, 0, 28, 0, 1, 0, 0, 0, 0, 0, 4, 1, 2, 3, 4]);
    assert_eq!(Parser::parse(&buf).unwrap_err(), ParseError::FormatError);
}

#[test]
fn option_running_past_rdlength_is_refused() {
    let mut buf = vec![0, 0, 0, 0, 0, 0, 0, 0, 0, 0, 0, 1];
    buf.extend_from_slice(&[0, 0, 41, 2, 0, 0, 0, 0, 0, 0, 5, 0, 3, 0, 4, 1, 2, 3, 4]);
    assert_eq!(Parser::parse(&buf).unwrap_err(), ParseError::OptionLengthMismatch);
}

#[test]
fn truncated_record_overflows() {
    let mut buf = vec![0, 0, 0, 0, 0, 0, 0, 1, 0, 0, 0, 0];
    buf.extend_from_slice(&[0, 0, 1, 0, 1]);
    assert_eq!(Parser::parse(&buf).unwrap_err(), ParseError::BufferOverflow(17, 17));
}

#[test]
fn flags_word_layout() {
    let f = Flags::from_be_bytes([0x81, 0xB3]);
    assert_eq!((f.qr, f.aa, f.tc, f.rd), (1, 0, 0, 1));
    assert_eq!(f.opcode, OpCode::Query);
    assert_eq!((f.ra, f.z, f.ad, f.cd), (1, 0, 1, 1));
    assert_eq!(f.rcode, RCode::NXDomain);
    assert_eq!(f.to_be_bytes(), [0x81, 0xB3]);
    let g = Flags::from_be_bytes([0x28, 0x05]);
    assert_eq!(g.opcode, OpCode::Update);
    assert_eq!(g.rcode, RCode::Refused);
    assert_eq!(g.to_be_bytes(), [0x28, 0x05]);
}

#[test]
fn flags_fields_are_masked_on_write() {
    let f = Flags {
        qr: 3,
        opcode: OpCode::Unknown(0x1F),
        aa: 0,
        tc: 0,
        rd: 0,
        ra: 0,
        z: 0,
        ad: 0,
        cd: 0,
        rcode: RCode::BADSIG,
    };
    assert_eq!(f.to_be_bytes(), [0xF8, 0x00]);
}

#[test]
fn header_round_trip() {
    let h = Header { id: 7, flags: Flags::from_be_bytes([0x84, 0x00]), qdcount: 1, ancount: 2, nscount: 3, arcount: 4 };
    let mut s = Serializer::new();
    assert_eq!(h.serialize(&mut s).unwrap(), 12);
    assert_eq!(s.as_bytes(), &[0, 7, 0x84, 0, 0, 1, 0, 2, 0, 3, 0, 4][..]);
    let mut p = Parser::new(s.as_bytes());
    assert_eq!(Header::parse(&mut p).unwrap(), h);
}

#[test]
fn code_tables() {
    assert_eq!(Type::from_u16(28), Type::AAAA);
    assert_eq!(Type::CAA.to_u16(), 257);
    assert_eq!(Type::from_u16(99), Type::Unknown(99));
    assert_eq!(Class::from_u16(255), Class::ANY);
    assert_eq!(Class::from_u16(4096), Class::OPT(4096));
    assert_eq!(Class::from_u16(100).to_u16(), 100);
    assert_eq!(OptionCode::from_u16(15), OptionCode::ExtendedError);
    assert_eq!(OptionCode::from_u16(4), OptionCode::Unknown(4));
    assert_eq!(OpCode::from_u8(6), OpCode::DSO);
    assert_eq!(OpCode::from_u8(1), OpCode::Unknown(1));
    assert_eq!(RCode::from_u8(23), RCode::BADCOOKIE);
    assert_eq!(RCode::from_u8(12), RCode::Unknown(12));
}

#[test]
fn badvers_is_written_as_badsig() {
    assert_eq!(RCode::BADVERS.to_u8(), 16);
    assert_eq!(RCode::BADSIG.to_u8(), 16);
    assert_eq!(RCode::from_u8(16), RCode::BADSIG);
}

#[test]
fn record_sizes() {
    assert_eq!(Record::A { address: [1, 2, 3, 4] }.size(), 4);
    assert_eq!(Record::AAAA { address: [0; 16] }.size(), 16);
    assert_eq!(Record::MX { preference: 1, exchange: name(&["mx"]) }.size(), 6);
    assert_eq!(Record::TXT { text: vec![1, 2, 3] }.size(), 3);
    let soa = Record::SOA {
        mname: name(&["a"]),
        rname: name(&["b"]),
        serial: 1,
        refresh: 2,
        retry: 3,
        expire: 4,
        minimum: 5,
    };
    assert_eq!(soa.size(), 26);
    assert_eq!(soa.record_type(), Type::SOA);
    let o = EdnsOption::Unknown { code: OptionCode::NSID, len: 0, data: vec![] };
    assert_eq!(o.size(), 4);
}

#[test]
fn question_round_trip() {
    let q = dns::Question { name: name(&["example", "org"]), qtype: Type::MX, class: Class::CH };
    let mut s = Serializer::new();
    q.serialize(&mut s).unwrap();
    let mut p = Parser::new(s.as_bytes());
    assert_eq!(dns::Question::parse(&mut p).unwrap(), q);
    assert_eq!(p.remaining(), 0);
}

#[test]
fn name_text_form() {
    assert_eq!(name(&["example", "com"]).to_text(), Some("example.com.".to_string()));
    assert_eq!(name(&[]).to_text(), Some(".".to_string()));
    assert_eq!(name(&["caf\u{e9}"]).to_text(), Some("caf\u{e9}.".to_string()));
    let bad = DomainName { labels: vec![vec![0xFF]] };
    assert_eq!(bad.to_text(), None);
}
