use dns::rr::Option as EdnsOption;
use dns::{
    Class, DomainName, OpCode, OptionCode, ParseError, Parser, RCode, Record, ResourceRecord, Type,
};

fn query_example_com() -> Vec<u8> {
    let mut buf = vec![0x12, 0x34, 0x01, 0x00, 0, 1, 0, 0, 0, 0, 0, 0];
    buf.extend_from_slice(&[7]);
    buf.extend_from_slice(b"example");
    buf.extend_from_slice(&[3]);
    buf.extend_from_slice(b"com");
    buf.extend_from_slice(&[0, 0, 1, 0, 1]);
    buf
}

#[test]
fn all_zero_header_decodes_to_empty_message() {
    let buf = [0u8; 12];
    let packet = Parser::parse(&buf).unwrap();
    assert_eq!(packet.header.id, 0);
    let f = packet.header.flags;
    assert_eq!((f.qr, f.aa, f.tc, f.rd, f.ra, f.z, f.ad, f.cd), (0, 0, 0, 0, 0, 0, 0, 0));
    assert_eq!(f.opcode, OpCode::Query);
    assert_eq!(f.rcode, RCode::NoError);
    assert_eq!(
        (packet.header.qdcount, packet.header.ancount, packet.header.nscount, packet.header.arcount),
        (0, 0, 0, 0)
    );
    assert!(packet.questions.is_empty());
    assert!(packet.answers.is_empty());
    assert!(packet.authorities.is_empty());
    assert!(packet.additionals.is_empty());
}

#[test]
fn minimal_query_decodes_one_question() {
    let buf = query_example_com();
    let packet = Parser::parse(&buf).unwrap();
    assert_eq!(packet.header.id, 0x1234);
    assert_eq!(packet.header.flags.rd, 1);
    assert_eq!(packet.questions.len(), 1);
    let q = &packet.questions[0];
    assert_eq!(q.name.labels, vec![b"example".to_vec(), b"com".to_vec()]);
    assert_eq!(q.qtype, Type::A);
    assert_eq!(q.class, Class::IN);
}

fn answer_with_pointer() -> Vec<u8> {
    let mut buf = query_example_com();
    buf[7] = 1; // one answer
    buf.extend_from_slice(&[0xC0, 12, 0, 1, 0, 1, 0, 0, 0x0E, 0x10, 0, 4, 93, 184, 216, 34]);
    buf
}

#[test]
fn compressed_answer_name_matches_question_name() {
    let buf = answer_with_pointer();
    let packet = Parser::parse(&buf).unwrap();
    assert_eq!(packet.answers.len(), 1);
    match &packet.answers[0] {
        ResourceRecord::Record { name, ttl, .. } => {
            assert_eq!(name, &packet.questions[0].name);
            assert_eq!(*ttl, 3600);
        }
        other => panic!("unexpected record {:?}", other),
    }
}

#[test]
fn a_record_decodes_its_address() {
    let buf = answer_with_pointer();
    let packet = Parser::parse(&buf).unwrap();
    let rr = &packet.answers[0];
    assert_eq!(rr.record_type(), Type::A);
    match rr {
        ResourceRecord::Record { data: Record::A { address }, .. } => {
            assert_eq!(*address, [93, 184, 216, 34]);
        }
        other => panic!("unexpected record {:?}", other),
    }
}

#[test]
fn opt_record_decodes_payload_size() {
    let mut buf = vec![0, 7, 0, 0, 0, 0, 0, 0, 0, 0, 0, 1];
    buf.extend_from_slice(&[0, 0, 41, 0x10, 0x00, 0, 0, 0, 0, 0, 0]);
    let packet = Parser::parse(&buf).unwrap();
    assert_eq!(packet.additionals.len(), 1);
    match &packet.additionals[0] {
        ResourceRecord::OPTRecord { size, flags, options } => {
            assert_eq!(*size, 4096);
            assert_eq!(*flags, 0);
            assert!(options.is_empty());
        }
        other => panic!("unexpected record {:?}", other),
    }
    assert_eq!(packet.additionals[0].record_type(), Type::OPT);
}

#[test]
fn opt_record_with_an_option() {
    let mut buf = vec![0, 7, 0, 0, 0, 0, 0, 0, 0, 0, 0, 1];
    buf.extend_from_slice(&[0, 0, 41, 0x04, 0xD0, 0, 0, 0x80, 0, 0, 6, 0, 10, 0, 2, 0xAB, 0xCD]);
    let packet = Parser::parse(&buf).unwrap();
    match &packet.additionals[0] {
        ResourceRecord::OPTRecord { size, flags, options } => {
            assert_eq!(*size, 1232);
            assert_eq!(*flags, 0x8000);
            assert_eq!(
                options,
                &vec![EdnsOption::Unknown { code: OptionCode::Cookie, len: 2, data: vec![0xAB, 0xCD] }]
            );
        }
        other => panic!("unexpected record {:?}", other),
    }
}

#[test]
fn truncated_header_overflows() {
    let buf = [0u8; 6];
    assert_eq!(Parser::parse(&buf).unwrap_err(), ParseError::BufferOverflow(6, 6));
}

#[test]
fn trailing_bytes_are_left_unread() {
    let mut buf = query_example_com();
    buf.extend_from_slice(&[1, 2, 3]);
    let mut parser = Parser::new(&buf);
    let packet = <dns::Packet as dns::Parse>::parse(&mut parser).unwrap();
    assert_eq!(packet.questions.len(), 1);
    assert_eq!(parser.remaining(), 3);
}

#[test]
fn unknown_type_keeps_raw_data() {
    let mut buf = vec![0, 1, 0x81, 0x80, 0, 0, 0, 1, 0, 0, 0, 0];
    buf.extend_from_slice(&[0, 0, 33, 0, 3, 0, 0, 0, 5, 0, 3, 9, 8, 7]);
    let packet = Parser::parse(&buf).unwrap();
    assert_eq!(
        packet.answers[0],
        ResourceRecord::Unknown {
            name: DomainName { labels: vec![] },
            rtype: Type::SRV,
            class: Class::CH,
            ttl: 5,
            data: vec![9, 8, 7],
        }
    );
}
