use vstd::prelude::*;

use crate::codes::{Class, Type};
use crate::domain_name::{
    lemma_labels_at_wire, lemma_uncompressed_wire, name_wire, uncompressed_at, valid_name, writable_name,
    DomainName,
};
use crate::parser::{be_u16, fits, past_end, Parse, ParseError, Parser};
use crate::round_trip::{
    lemma_stands_at_join, lemma_stands_at_split, lemma_write_u16, stands_at, RoundTrip,
};
use crate::serializer::{
    lemma_wrote_stop, lemma_wrote_then, u16_bytes, Serialize, SerializeError, Serializer,
};

verus! {

/// One entry of the question section (RFC 1035 section 4.1.2): a name, the type asked for and the
/// class.
#[derive(Debug, Clone, PartialEq, Eq)]
pub struct Question {
    pub name: DomainName,
    pub qtype: Type,
    pub class: Class,
}

/// What a `Question` holds.
pub struct QuestionView {
    pub name: Seq<Seq<u8>>,
    pub qtype: Type,
    pub class: Class,
}

impl View for Question {
    type V = QuestionView;

    open spec fn view(&self) -> QuestionView {
        QuestionView { name: self.name@, qtype: self.qtype, class: self.class }
    }
}

/// The four bytes after the name: type and class.
pub open spec fn question_tail(q: QuestionView) -> Seq<u8> {
    u16_bytes(q.qtype.spec_to_u16()) + u16_bytes(q.class.spec_to_u16())
}

impl Parse for Question {
    open spec fn spec_parse(buf: Seq<u8>, pos: int) -> Result<(QuestionView, int), ParseError> {
        match DomainName::spec_parse(buf, pos) {
            Err(e) => Err(e),
            Ok((name, p)) => if !fits(buf, p, 4) {
                Err(past_end(buf, p))
            } else {
                Ok(
                    (
                        QuestionView {
                            name,
                            qtype: Type::spec_from_u16(be_u16(buf, p)),
                            class: Class::spec_from_u16(be_u16(buf, p + 2)),
                        },
                        p + 4,
                    ),
                )
            },
        }
    }

    fn parse(parser: &mut Parser) -> (r: Result<Question, ParseError>) {
        let name = DomainName::parse(parser)?;
        if parser.remaining() < 4 {
            return Err(
                ParseError::BufferOverflow(parser.buffer_len(), parser.buffer_len()),
            );
        }
        let qtype = Type::from_u16(parser.consume_u16()?);
        let class = Class::from_u16(parser.consume_u16()?);
        Ok(Question { name, qtype, class })
    }
}

impl Serialize for Question {
    open spec fn spec_wire(v: QuestionView) -> Seq<u8> {
        name_wire(v.name) + question_tail(v)
    }

    open spec fn spec_writable(v: QuestionView) -> bool {
        writable_name(v.name)
    }

    fn serialize(&self, serializer: &mut Serializer) -> (r: Result<usize, SerializeError>) {
        let ghost s0 = *serializer;
        let r1 = self.name.serialize(serializer);
        let ghost s1 = *serializer;
        if let Err(e) = r1 {
            proof {
                lemma_wrote_stop(s0, s1, name_wire(self.name@), question_tail(self@), writable_name(self.name@), true, r1);
            }
            return Err(e);
        }
        let t = self.qtype.to_u16();
        let c = self.class.to_u16();
        let tail: [u8; 4] = [(t / 0x100) as u8, (t % 0x100) as u8, (c / 0x100) as u8, (c % 0x100) as u8];
        proof {
            assert(tail@ =~= question_tail(self@));
        }
        let r2 = serializer.write_bytes(&tail);
        proof {
            lemma_wrote_then(s0, s1, *serializer, name_wire(self.name@), tail@, writable_name(self.name@), true, r1, r2);
        }
        match r2 {
            Ok(()) => Ok(serializer.position()),
            Err(e) => Err(e),
        }
    }
}

impl RoundTrip for Question {
    open spec fn spec_valid(v: QuestionView) -> bool {
        &&& valid_name(v.name)
        &&& Type::spec_from_u16(v.qtype.spec_to_u16()) == v.qtype
        &&& Class::spec_from_u16(v.class.spec_to_u16()) == v.class
    }

    proof fn lemma_round_trip(buf: Seq<u8>, pos: int, v: QuestionView) {
        let w = Self::spec_wire(v);
        assert(stands_at(buf, pos, w));
        lemma_stands_at_split(buf, pos, name_wire(v.name), question_tail(v));
        lemma_labels_at_wire(buf, pos, v.name, buf.len() as nat);
        let p = pos + name_wire(v.name).len();
        assert(buf[p] == question_tail(v)[0] && buf[p + 1] == question_tail(v)[1]);
        assert(buf[p + 2] == question_tail(v)[2] && buf[p + 3] == question_tail(v)[3]);
        assert(be_u16(buf, p) == v.qtype.spec_to_u16());
        assert(be_u16(buf, p + 2) == v.class.spec_to_u16());
    }

    open spec fn spec_canonical_at(buf: Seq<u8>, pos: int) -> bool {
        uncompressed_at(buf, pos)
    }

    proof fn lemma_wire_of_parse(buf: Seq<u8>, pos: int) {
        lemma_uncompressed_wire(buf, pos, buf.len() as nat);
        let (name, p) = DomainName::spec_parse(buf, pos)->Ok_0;
        let q = Self::spec_parse(buf, pos)->Ok_0.0;
        crate::codes::lemma_codes_round_trip(be_u16(buf, p), 0);
        crate::codes::lemma_codes_round_trip(be_u16(buf, p + 2), 0);
        lemma_write_u16(buf, p);
        lemma_write_u16(buf, p + 2);
        lemma_stands_at_join(buf, p, u16_bytes(q.qtype.spec_to_u16()), u16_bytes(q.class.spec_to_u16()));
        lemma_stands_at_join(buf, pos, name_wire(name), question_tail(q));
    }
}

} // verus!
