use dns::header::Flags;
use dns::rr::Option as EdnsOption;
use dns::{
    Class, DomainName, Header, OpCode, OptionCode, Packet, Parse, ParseError, Parser, RCode, Record,
    ResourceRecord, Serialize, Serializer, Type,
};

fn name(labels: &[&str]) -> DomainName {
    DomainName { labels: labels.iter().map(|l| l.as_bytes().to_vec()).collect() }
}

fn flags() -> Flags {
    Flags {
        qr: 1,
        opcode: OpCode::Update,
        aa: 1,
        tc: 0,
        rd: 1,
        ra: 1,
        z: 0,
        ad: 1,
        cd: 0,
        rcode: RCode::NXDomain,
    }
}

fn full_message() -> Packet {
    let answers = vec![
        ResourceRecord::Record {
            name: name(&["example", "com"]),
            ttl: 300,
            data: Record::A { address: [10, 0, 0, 1] },
        },
        ResourceRecord::Record {
            name: name(&["example", "com"]),
            ttl: 300,
            data: Record::AAAA { address: [0x20, 0x01, 0x0d, 0xb8, 0, 0, 0, 0, 0, 0, 0, 0, 0, 0, 0, 1] },
        },
        ResourceRecord::Record {
            name: name(&["www", "example", "com"]),
            ttl: 60,
            data: Record::CNAME { cname: name(&["example", "com"]) },
        },
        ResourceRecord::Record {
            name: name(&["example", "com"]),
            ttl: 60,
            data: Record::MX { preference: 10, exchange: name(&["mail", "example", "com"]) },
        },
        ResourceRecord::Record {
            name: name(&["example", "com"]),
            ttl: 60,
            data: Record::TXT { text: b"\x0bhello world".to_vec() },
        },
        ResourceRecord::Record {
            name: name(&["1", "0", "0", "10", "in-addr", "arpa"]),
            ttl: 60,
            data: Record::PTR { ptrdname: name(&["example", "com"]) },
        },
    ];
    let authorities = vec![
        ResourceRecord::Record {
            name: name(&["com"]),
            ttl: 900,
            data: Record::NS { nsdname: name(&["ns1", "example", "com"]) },
        },
        ResourceRecord::Record {
            name: name(&["example", "com"]),
            ttl: 900,
            data: Record::SOA {
                mname: name(&["ns1", "example", "com"]),
                rname: name(&["hostmaster", "example", "com"]),
                serial: 2024010101,
                refresh: 7200,
                retry: 3600,
                expire: 1209600,
                minimum: 300,
            },
        },
    ];
    let additionals = vec![
        ResourceRecord::Unknown {
            name: name(&["_sip", "_tcp", "example", "com"]),
            rtype: Type::SRV,
            class: Class::IN,
            ttl: 60,
            data: vec![0, 1, 0, 2, 0x13, 0xC4, 0],
        },
        ResourceRecord::OPTRecord {
            size: 4096,
            flags: 0x8000,
            options: vec![EdnsOption::Unknown { code: OptionCode::Cookie, len: 3, data: vec![1, 2, 3] }],
        },
    ];
    Packet {
        header: Header {
            id: 0xBEEF,
            flags: flags(),
            qdcount: 1,
            ancount: answers.len() as u16,
            nscount: authorities.len() as u16,
            arcount: additionals.len() as u16,
        },
        questions: vec![dns::Question { name: name(&["example", "com"]), qtype: Type::A, class: Class::IN }],
        answers,
        authorities,
        additionals,
    }
}

#[test]
fn message_round_trip_field_for_field() {
    let m = full_message();
    let bytes = Serializer::serialize(&m).unwrap();
    let back = Parser::parse(&bytes).unwrap();
    assert_eq!(back, m);
}

#[test]
fn buffer_round_trip_byte_for_byte() {
    let bytes = Serializer::serialize(&full_message()).unwrap();
    let back = Parser::parse(&bytes).unwrap();
    assert_eq!(Serializer::serialize(&back).unwrap(), bytes);
}

#[test]
fn query_buffer_round_trip() {
    let mut buf = vec![0xAB, 0xCD, 0x01, 0x20, 0, 1, 0, 0, 0, 0, 0, 0];
    buf.extend_from_slice(&[3, b'w', b'w', b'w', 2, b'i', b'o', 0, 0, 28, 0, 1]);
    let packet = Parser::parse(&buf).unwrap();
    assert_eq!(packet.header.flags.ad, 1);
    assert_eq!(Serializer::serialize(&packet).unwrap(), buf);
}

#[test]
fn compressed_name_reads_as_uncompressed() {
    // "mail" then a pointer to "example.com" at offset 12.
    let mut compressed = vec![0u8; 12];
    compressed.extend_from_slice(&[7]);
    compressed.extend_from_slice(b"example");
    compressed.extend_from_slice(&[3]);
    compressed.extend_from_slice(b"com");
    compressed.push(0);
    let start = compressed.len();
    compressed.extend_from_slice(&[4]);
    compressed.extend_from_slice(b"mail");
    compressed.extend_from_slice(&[0xC0, 12]);
    let mut parser = Parser::new(&compressed);
    parser.seek(start).unwrap();
    let from_pointer = DomainName::parse(&mut parser).unwrap();
    assert_eq!(parser.position(), compressed.len());

    let mut plain = vec![4];
    plain.extend_from_slice(b"mail");
    plain.extend_from_slice(&[7]);
    plain.extend_from_slice(b"example");
    plain.extend_from_slice(&[3]);
    plain.extend_from_slice(b"com");
    plain.push(0);
    let mut parser = Parser::new(&plain);
    let uncompressed = DomainName::parse(&mut parser).unwrap();
    assert_eq!(from_pointer, uncompressed);
    assert_eq!(from_pointer, name(&["mail", "example", "com"]));
}

#[test]
fn every_code_value_round_trips() {
    for v in 0..=u16::MAX {
        assert_eq!(Type::from_u16(v).to_u16(), v);
        assert_eq!(Class::from_u16(v).to_u16(), v);
        assert_eq!(OptionCode::from_u16(v).to_u16(), v);
    }
    for v in 0..=u8::MAX {
        assert_eq!(OpCode::from_u8(v).to_u8(), v);
        assert_eq!(RCode::from_u8(v).to_u8(), v);
    }
}

#[test]
fn label_of_63_bytes_is_accepted() {
    let mut buf = vec![63];
    buf.extend_from_slice(&[b'a'; 63]);
    buf.push(0);
    let mut parser = Parser::new(&buf);
    let n = DomainName::parse(&mut parser).unwrap();
    assert_eq!(n.labels, vec![vec![b'a'; 63]]);
}

#[test]
fn label_of_64_bytes_is_refused() {
    let mut buf = vec![64];
    buf.extend_from_slice(&[b'a'; 64]);
    buf.push(0);
    let mut parser = Parser::new(&buf);
    assert_eq!(DomainName::parse(&mut parser).unwrap_err(), ParseError::InvalidLabelLength(64));
}

#[test]
fn pointer_to_buffer_end_overflows() {
    let buf = [0xC0, 2];
    let mut parser = Parser::new(&buf);
    assert!(matches!(DomainName::parse(&mut parser), Err(ParseError::BufferOverflow(2, 2))));
}

#[test]
fn rdlength_is_recomputed_from_the_data() {
    let rr = ResourceRecord::Record {
        name: name(&["a"]),
        ttl: 1,
        data: Record::NS { nsdname: name(&["ns", "example", "com"]) },
    };
    let mut s = Serializer::new();
    let end = rr.serialize(&mut s).unwrap();
    let bytes = s.as_bytes();
    assert_eq!(end, bytes.len());
    // name "a" takes 3 bytes; RDLENGTH sits 8 bytes after it.
    let rdlength = u16::from_be_bytes([bytes[3 + 8], bytes[3 + 9]]) as usize;
    assert_eq!(rdlength, bytes.len() - (3 + 10));
    assert_eq!(rdlength, 16);
    if let ResourceRecord::Record { data, .. } = &rr {
        assert_eq!(data.size(), 16);
    }
}

#[test]
fn option_length_field_is_the_data_length() {
    let rr = ResourceRecord::OPTRecord {
        size: 512,
        flags: 0,
        options: vec![EdnsOption::Unknown { code: OptionCode::Padding, len: 99, data: vec![0, 0] }],
    };
    let mut s = Serializer::new();
    rr.serialize(&mut s).unwrap();
    assert_eq!(s.as_bytes(), &[0, 0, 41, 2, 0, 0, 0, 0, 0, 0, 6, 0, 12, 0, 2, 0, 0][..]);
}

#[test]
fn canonical_buffer_is_written_back_unchanged() {
    let mut buf = vec![0x00, 0x2A, 0x84, 0x00, 0, 1, 0, 1, 0, 1, 0, 1];
    // question: example.com NS IN
    buf.extend_from_slice(&[7]);
    buf.extend_from_slice(b"example");
    buf.extend_from_slice(&[3]);
    buf.extend_from_slice(b"com");
    buf.extend_from_slice(&[0, 0, 2, 0, 1]);
    // answer: com NS ns.com
    buf.extend_from_slice(&[3, b'c', b'o', b'm', 0, 0, 2, 0, 1, 0, 0, 0, 60, 0, 8]);
    buf.extend_from_slice(&[2, b'n', b's', 3, b'c', b'o', b'm', 0]);
    // authority: com SOA a. b. 1 2 3 4 5
    buf.extend_from_slice(&[3, b'c', b'o', b'm', 0, 0, 6, 0, 1, 0, 0, 0, 60, 0, 26]);
    buf.extend_from_slice(&[1, b'a', 0, 1, b'b', 0]);
    buf.extend_from_slice(&[0, 0, 0, 1, 0, 0, 0, 2, 0, 0, 0, 3, 0, 0, 0, 4, 0, 0, 0, 5]);
    // additional: OPT, payload 1232, one option
    buf.extend_from_slice(&[0, 0, 41, 0x04, 0xD0, 0, 0, 0, 0, 0, 5, 0, 8, 0, 1, 0x18]);
    let packet = Parser::parse(&buf).unwrap();
    assert_eq!(Serializer::serialize(&packet).unwrap(), buf);
}
