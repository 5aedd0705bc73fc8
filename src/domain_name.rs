use vstd::prelude::*;
use vstd::string::StringExecFns;
use vstd::utf8::{decode_utf8, valid_utf8};

use crate::parser::{capped, fits, lemma_prepend_assoc, overflow, past_end, prepend, Parse, ParseError, Parser};
use crate::serializer::{Serialize, SerializeError, Serializer};

verus! {

/// A domain name: its labels in order, each 1 to 63 bytes of UTF-8 text. The root name has none.
#[derive(Debug, Clone, PartialEq, Eq)]
pub struct DomainName {
    pub labels: Vec<Vec<u8>>,
}

impl View for DomainName {
    type V = Seq<Seq<u8>>;

    open spec fn view(&self) -> Seq<Seq<u8>> {
        self.labels.deep_view()
    }
}

/// Whether `label` has a length that a label can have on the wire.
pub open spec fn label_len_ok(label: Seq<u8>) -> bool {
    1 <= label.len() <= 63
}

/// Whether every label of a name can be written.
pub open spec fn writable_name(labels: Seq<Seq<u8>>) -> bool {
    forall|i: int| 0 <= i < labels.len() ==> label_len_ok(#[trigger] labels[i])
}

/// Whether a name can be written and read back: every label has a valid length and is UTF-8.
pub open spec fn valid_name(labels: Seq<Seq<u8>>) -> bool {
    forall|i: int|
        0 <= i < labels.len() ==> label_len_ok(#[trigger] labels[i]) && valid_utf8(labels[i])
}

/// The labels, each preceded by its length byte.
pub open spec fn labels_bytes(labels: Seq<Seq<u8>>) -> Seq<u8>
    decreases labels.len(),
{
    if labels.len() == 0 {
        Seq::empty()
    } else {
        seq![labels[0].len() as u8] + labels[0] + labels_bytes(labels.drop_first())
    }
}

/// A name on the wire, uncompressed: the labels, then the zero byte that ends the name.
pub open spec fn name_wire(labels: Seq<Seq<u8>>) -> Seq<u8> {
    labels_bytes(labels).push(0)
}

/// The two bytes of a compression pointer to `target`.
pub open spec fn pointer_bytes(target: int) -> Seq<u8> {
    seq![(0xC0 + target / 0x100) as u8, (target % 0x100) as u8]
}

/// Reads the labels of a name at `pos` of `buf`, following at most `hops` compression pointers.
/// Gives the labels and the position after the name where it stands at `pos` (after the zero byte,
/// or after the first pointer).
pub open spec fn labels_at(buf: Seq<u8>, pos: int, hops: nat) -> Result<(Seq<Seq<u8>>, int), ParseError>
    decreases hops, buf.len() - pos,
{
    if !fits(buf, pos, 1) {
        Err(past_end(buf, pos))
    } else {
        let len = buf[pos];
        if len == 0 {
            Ok((Seq::empty(), pos + 1))
        } else if len >= 0xC0 {
            if !fits(buf, pos + 1, 1) {
                Err(past_end(buf, pos + 1))
            } else if hops == 0 {
                Err(ParseError::CompressionLoop)
            } else {
                let target = (len - 0xC0) * 0x100 + buf[pos + 1];
                if target > buf.len() {
                    Err(ParseError::BufferOverflow((pos + 2) as usize, buf.len() as usize))
                } else {
                    match labels_at(buf, target, (hops - 1) as nat) {
                        Ok((labels, _)) => Ok((labels, pos + 2)),
                        Err(e) => Err(e),
                    }
                }
            }
        } else if len <= 63 {
            if !fits(buf, pos + 1, len as int) {
                Err(overflow(buf, pos + 1, len as int))
            } else {
                let label = buf.subrange(pos + 1, pos + 1 + len);
                if !valid_utf8(label) {
                    Err(ParseError::InvalidUtf8)
                } else {
                    prepend(seq![label], labels_at(buf, pos + 1 + len, hops))
                }
            }
        } else {
            Err(ParseError::InvalidLabelLength(len as usize))
        }
    }
}

/// Relies on `std::str::from_utf8`, which succeeds exactly on valid UTF-8 and then gives the text
/// that the bytes encode.
#[verifier::external_body]
fn utf8_text(bytes: &[u8]) -> (r: core::option::Option<&str>)
    ensures
        r is Some <==> valid_utf8(bytes@),
        r is Some ==> r->0@ == decode_utf8(bytes@),
{
    std::str::from_utf8(bytes).ok()
}

/// Reads the labels of a name, following at most `hops` compression pointers.
fn parse_labels(parser: &mut Parser, hops: usize) -> (r: Result<Vec<Vec<u8>>, ParseError>)
    ensures
        final(parser).data() == old(parser).data(),
        match labels_at(old(parser).data(), old(parser).pos(), hops as nat) {
            Ok((labels, end)) => r is Ok && r->Ok_0.deep_view() == labels && final(parser).pos() == end,
            Err(e) => r == Err::<Vec<Vec<u8>>, ParseError>(e),
        },
    decreases hops,
{
    let ghost buf = parser.data();
    let ghost start = parser.pos();
    let mut labels: Vec<Vec<u8>> = Vec::new();
    proof {
        if let Ok((l, e)) = labels_at(buf, start, hops as nat) {
            assert(Seq::<Seq<u8>>::empty() + l =~= l);
        }
    }
    loop
        invariant
            parser.data() == buf,
            buf == old(parser).data(),
            start == old(parser).pos(),
            labels_at(buf, start, hops as nat) == prepend(
                labels.deep_view(),
                labels_at(buf, parser.pos(), hops as nat),
            ),
        decreases buf.len() - parser.pos(),
    {
        let ghost pos = parser.pos();
        let len = parser.consume_u8()?;
        if len == 0 {
            proof {
                assert(labels.deep_view() + Seq::<Seq<u8>>::empty() =~= labels.deep_view());
            }
            return Ok(labels);
        } else if len >= 0xC0 {
            let low = parser.consume_u8()?;
            if hops == 0 {
                return Err(ParseError::CompressionLoop);
            }
            let saved = parser.position();
            let target = ((len - 0xC0) as usize) * 0x100 + low as usize;
            parser.seek(target)?;
            let mut rest = parse_labels(parser, hops - 1)?;
            let ghost before = labels.deep_view();
            let ghost rest_view = rest.deep_view();
            labels.append(&mut rest);
            parser.seek(saved)?;
            proof {
                assert(labels.deep_view() =~= before + rest_view);
            }
            return Ok(labels);
        } else if len <= 63 {
            let bytes = parser.consume_bytes(len as usize)?;
            if utf8_text(bytes).is_none() {
                return Err(ParseError::InvalidUtf8);
            }
            let label = vstd::slice::slice_to_vec(bytes);
            let ghost before = labels.deep_view();
            proof {
                assert(label.deep_view() =~= label@);
            }
            labels.push(label);
            proof {
                assert(labels.deep_view() =~= before + seq![label@]);
                lemma_prepend_assoc(before, seq![label@], labels_at(buf, parser.pos(), hops as nat));
            }
        } else {
            return Err(ParseError::InvalidLabelLength(len as usize));
        }
    }
}

impl Parse for DomainName {
    /// A name is read with as many pointer hops as the buffer has bytes: a chain of pointers that
    /// ends visits each pointer once, so only a chain that loops runs out.
    open spec fn spec_parse(buf: Seq<u8>, pos: int) -> Result<(Seq<Seq<u8>>, int), ParseError> {
        labels_at(buf, pos, buf.len() as nat)
    }

    fn parse(parser: &mut Parser) -> (r: Result<DomainName, ParseError>) {
        let hops = parser.buffer_len();
        let labels = parse_labels(parser, hops)?;
        Ok(DomainName { labels })
    }
}

/// `labels_bytes` of two sequences of labels one after the other.
pub proof fn lemma_labels_bytes_split(a: Seq<Seq<u8>>, b: Seq<Seq<u8>>)
    ensures
        labels_bytes(a + b) == labels_bytes(a) + labels_bytes(b),
    decreases a.len(),
{
    if a.len() == 0 {
        assert(a + b =~= b);
        assert(labels_bytes(a) + labels_bytes(b) =~= labels_bytes(b));
    } else {
        assert((a + b).drop_first() =~= a.drop_first() + b);
        lemma_labels_bytes_split(a.drop_first(), b);
        assert(labels_bytes(a + b) =~= labels_bytes(a) + labels_bytes(b));
    }
}

/// The labels up to `i`, then label `i`, then the rest, in bytes.
proof fn lemma_labels_bytes_at(s: Seq<Seq<u8>>, i: int)
    requires
        0 <= i < s.len(),
    ensures
        labels_bytes(s.subrange(0, i + 1)) == labels_bytes(s.subrange(0, i)) + seq![s[i].len() as u8] + s[i],
        labels_bytes(s).len() >= labels_bytes(s.subrange(0, i)).len() + 1 + s[i].len(),
{
    let one = seq![s[i]];
    assert(s.subrange(0, i + 1) =~= s.subrange(0, i) + one);
    lemma_labels_bytes_split(s.subrange(0, i), one);
    assert(one.drop_first() =~= Seq::<Seq<u8>>::empty());
    assert(labels_bytes(one.drop_first()) =~= Seq::<u8>::empty());
    assert(one[0] == s[i]);
    assert(labels_bytes(one) =~= seq![s[i].len() as u8] + s[i]);
    assert(s =~= s.subrange(0, i + 1) + s.subrange(i + 1, s.len() as int));
    lemma_labels_bytes_split(s.subrange(0, i + 1), s.subrange(i + 1, s.len() as int));
}

impl DomainName {
    /// The number of bytes of the labels with their length bytes (the name on the wire without its
    /// ending zero byte), or `usize::MAX` where that does not fit.
    pub fn size(&self) -> (r: usize)
        ensures
            r == capped(labels_bytes(self@).len() as int),
    {
        let mut total: usize = 0;
        let mut i: usize = 0;
        while i < self.labels.len()
            invariant
                0 <= i <= self.labels.len(),
                total == capped(labels_bytes(self@.subrange(0, i as int)).len() as int),
            decreases self.labels.len() - i,
        {
            proof {
                lemma_labels_bytes_at(self@, i as int);
                assert(self@[i as int] =~= self.labels[i as int]@);
            }
            total = total.saturating_add(self.labels[i].len().saturating_add(1));
            i = i + 1;
        }
        proof {
            assert(self@.subrange(0, i as int) =~= self@);
        }
        total
    }
}

impl Serialize for DomainName {
    open spec fn spec_wire(v: Seq<Seq<u8>>) -> Seq<u8> {
        name_wire(v)
    }

    open spec fn spec_writable(v: Seq<Seq<u8>>) -> bool {
        writable_name(v)
    }

    fn serialize(&self, serializer: &mut Serializer) -> (r: Result<usize, SerializeError>) {
        let ghost start = serializer.bytes();
        let ghost s = self@;
        let mut i: usize = 0;
        while i < self.labels.len()
            invariant
                0 <= i <= self.labels.len(),
                s == self@,
                start == old(serializer).bytes(),
                serializer.bytes() == start + labels_bytes(s.subrange(0, i as int)),
                forall|j: int| 0 <= j < i ==> label_len_ok(#[trigger] s[j]),
            decreases self.labels.len() - i,
        {
            let label = &self.labels[i];
            let len = label.len();
            proof {
                lemma_labels_bytes_at(s, i as int);
                assert(s[i as int] =~= label@);
                assert(serializer.bytes().subrange(0, start.len() as int) =~= start);
            }
            if len < 1 || len > 63 {
                return Err(SerializeError::InvalidLabelLength(len));
            }
            match serializer.write_u8(len as u8) {
                Ok(()) => {},
                Err(e) => {
                    return Err(e);
                },
            }
            match serializer.write_bytes(label.as_slice()) {
                Ok(()) => {},
                Err(e) => {
                    proof {
                        assert(serializer.bytes().subrange(0, start.len() as int) =~= start);
                    }
                    return Err(e);
                },
            }
            proof {
                assert(serializer.bytes() =~= start + labels_bytes(s.subrange(0, i as int + 1)));
            }
            i = i + 1;
        }
        proof {
            assert(s.subrange(0, i as int) =~= s);
            assert(serializer.bytes().subrange(0, start.len() as int) =~= start);
        }
        match serializer.write_u8(0) {
            Ok(()) => {},
            Err(e) => {
                return Err(e);
            },
        }
        proof {
            assert(serializer.bytes() =~= start + name_wire(s));
            assert(serializer.bytes().subrange(0, start.len() as int) =~= start);
        }
        Ok(serializer.position())
    }
}

/// Reading an uncompressed name gives back its labels, however many hops are allowed.
pub proof fn lemma_labels_at_wire(buf: Seq<u8>, pos: int, labels: Seq<Seq<u8>>, hops: nat)
    requires
        valid_name(labels),
        0 <= pos,
        pos + name_wire(labels).len() <= buf.len(),
        buf.subrange(pos, pos + name_wire(labels).len()) == name_wire(labels),
    ensures
        labels_at(buf, pos, hops) == Ok::<(Seq<Seq<u8>>, int), ParseError>(
            (labels, pos + name_wire(labels).len()),
        ),
    decreases labels.len(),
{
    let w = name_wire(labels);
    assert(buf[pos] == w[0]);
    if labels.len() == 0 {
        assert(labels =~= Seq::<Seq<u8>>::empty());
    } else {
        let l0 = labels[0];
        let n = l0.len() as int;
        let rest = labels.drop_first();
        assert(label_len_ok(labels[0]));
        assert(w =~= seq![n as u8] + l0 + name_wire(rest));
        assert forall|k: int| 0 <= k < n implies buf[pos + 1 + k] == l0[k] by {
            assert(buf[pos + 1 + k] == w[1 + k]);
        }
        assert(buf.subrange(pos + 1, pos + 1 + n) =~= l0);
        let wr = name_wire(rest);
        assert forall|k: int| 0 <= k < wr.len() implies buf[pos + 1 + n + k] == wr[k] by {
            assert(buf[pos + 1 + n + k] == w[1 + n + k]);
        }
        assert(buf.subrange(pos + 1 + n, pos + 1 + n + wr.len()) =~= wr);
        assert forall|i: int| 0 <= i < rest.len() implies label_len_ok(#[trigger] rest[i])
            && valid_utf8(rest[i]) by {
            assert(rest[i] == labels[i + 1]);
        }
        lemma_labels_at_wire(buf, pos + 1 + n, rest, hops);
        assert(seq![l0] + rest =~= labels);
    }
}

/// Reading labels written out, then a pointer to an uncompressed name, gives all the labels.
proof fn lemma_labels_at_pointer(
    buf: Seq<u8>,
    pos: int,
    prefix: Seq<Seq<u8>>,
    target: int,
    suffix: Seq<Seq<u8>>,
    hops: nat,
)
    requires
        valid_name(prefix),
        valid_name(suffix),
        hops >= 1,
        0 <= target < 0x4000,
        target + name_wire(suffix).len() <= buf.len(),
        buf.subrange(target, target + name_wire(suffix).len()) == name_wire(suffix),
        0 <= pos,
        pos + labels_bytes(prefix).len() + 2 <= buf.len(),
        buf.subrange(pos, pos + labels_bytes(prefix).len() + 2) == labels_bytes(prefix)
            + pointer_bytes(target),
    ensures
        labels_at(buf, pos, hops) == Ok::<(Seq<Seq<u8>>, int), ParseError>(
            (prefix + suffix, pos + labels_bytes(prefix).len() + 2),
        ),
    decreases prefix.len(),
{
    let w = labels_bytes(prefix) + pointer_bytes(target);
    assert(buf[pos] == w[0]);
    if prefix.len() == 0 {
        assert(buf[pos + 1] == w[1]);
        assert(buf[pos] == (0xC0 + target / 0x100) as u8);
        assert(buf[pos + 1] == (target % 0x100) as u8);
        assert((buf[pos] - 0xC0) * 0x100 + buf[pos + 1] == target);
        lemma_labels_at_wire(buf, target, suffix, (hops - 1) as nat);
        assert(prefix + suffix =~= suffix);
    } else {
        let l0 = prefix[0];
        let n = l0.len() as int;
        let rest = prefix.drop_first();
        assert(label_len_ok(prefix[0]));
        assert(w =~= seq![n as u8] + l0 + (labels_bytes(rest) + pointer_bytes(target)));
        assert forall|k: int| 0 <= k < n implies buf[pos + 1 + k] == l0[k] by {
            assert(buf[pos + 1 + k] == w[1 + k]);
        }
        assert(buf.subrange(pos + 1, pos + 1 + n) =~= l0);
        let wr = labels_bytes(rest) + pointer_bytes(target);
        assert forall|k: int| 0 <= k < wr.len() implies buf[pos + 1 + n + k] == wr[k] by {
            assert(buf[pos + 1 + n + k] == w[1 + n + k]);
        }
        assert(buf.subrange(pos + 1 + n, pos + 1 + n + wr.len()) =~= wr);
        assert forall|i: int| 0 <= i < rest.len() implies label_len_ok(#[trigger] rest[i])
            && valid_utf8(rest[i]) by {
            assert(rest[i] == prefix[i + 1]);
        }
        lemma_labels_at_pointer(buf, pos + 1 + n, rest, target, suffix, hops);
        assert(seq![l0] + (rest + suffix) =~= prefix + suffix);
    }
}

/// Compression is transparent: a name written as some labels followed by a pointer to an
/// uncompressed occurrence of the remaining labels reads as the same label sequence as the whole
/// name written without compression.
pub proof fn lemma_compression_transparency(
    compressed: Seq<u8>,
    pos: int,
    prefix: Seq<Seq<u8>>,
    target: int,
    suffix: Seq<Seq<u8>>,
    plain: Seq<u8>,
    plain_pos: int,
)
    requires
        valid_name(prefix),
        valid_name(suffix),
        0 <= target < 0x4000,
        target + name_wire(suffix).len() <= compressed.len(),
        compressed.subrange(target, target + name_wire(suffix).len()) == name_wire(suffix),
        0 <= pos,
        pos + labels_bytes(prefix).len() + 2 <= compressed.len(),
        compressed.subrange(pos, pos + labels_bytes(prefix).len() + 2) == labels_bytes(prefix)
            + pointer_bytes(target),
        0 <= plain_pos,
        plain_pos + name_wire(prefix + suffix).len() <= plain.len(),
        plain.subrange(plain_pos, plain_pos + name_wire(prefix + suffix).len()) == name_wire(
            prefix + suffix,
        ),
    ensures
        DomainName::spec_parse(compressed, pos) is Ok,
        DomainName::spec_parse(plain, plain_pos) is Ok,
        DomainName::spec_parse(compressed, pos)->Ok_0.0 == prefix + suffix,
        DomainName::spec_parse(plain, plain_pos)->Ok_0.0 == prefix + suffix,
{
    lemma_labels_at_pointer(compressed, pos, prefix, target, suffix, compressed.len() as nat);
    let whole = prefix + suffix;
    assert forall|i: int| 0 <= i < whole.len() implies label_len_ok(#[trigger] whole[i])
        && valid_utf8(whole[i]) by {
        if i < prefix.len() {
            assert(whole[i] == prefix[i]);
        } else {
            assert(whole[i] == suffix[i - prefix.len()]);
        }
    }
    lemma_labels_at_wire(plain, plain_pos, whole, plain.len() as nat);
}

/// The limits of a label length byte: 63 starts a label, 64 is refused, and a pointer to the very
/// end of the buffer fails on the read that follows it.
pub proof fn lemma_label_length_boundary(buf: Seq<u8>, pos: int)
    requires
        0 <= pos < buf.len(),
    ensures
        buf[pos] == 63 && fits(buf, pos + 1, 63) && valid_utf8(buf.subrange(pos + 1, pos + 64))
            ==> DomainName::spec_parse(buf, pos) == prepend(
            seq![buf.subrange(pos + 1, pos + 64)],
            labels_at(buf, pos + 64, buf.len() as nat),
        ),
        buf[pos] == 64 ==> DomainName::spec_parse(buf, pos) == Err::<(Seq<Seq<u8>>, int), ParseError>(
            ParseError::InvalidLabelLength(64),
        ),
        fits(buf, pos, 2) && buf[pos] >= 0xC0 && (buf[pos] - 0xC0) * 0x100 + buf[pos + 1] == buf.len()
            ==> DomainName::spec_parse(buf, pos) == Err::<(Seq<Seq<u8>>, int), ParseError>(
            past_end(buf, buf.len() as int),
        ),
{
    if fits(buf, pos, 2) && buf[pos] >= 0xC0 && (buf[pos] - 0xC0) * 0x100 + buf[pos + 1] == buf.len() {
        assert(labels_at(buf, buf.len() as int, (buf.len() - 1) as nat) == Err::<
            (Seq<Seq<u8>>, int),
            ParseError,
        >(past_end(buf, buf.len() as int)));
    }
}

/// Whether every label is UTF-8 text.
pub open spec fn all_utf8(labels: Seq<Seq<u8>>) -> bool {
    forall|i: int| 0 <= i < labels.len() ==> valid_utf8(#[trigger] labels[i])
}

/// The text of the labels, each followed by a dot.
pub open spec fn labels_text(labels: Seq<Seq<u8>>) -> Seq<char>
    decreases labels.len(),
{
    if labels.len() == 0 {
        Seq::empty()
    } else {
        labels_text(labels.drop_last()) + decode_utf8(labels.last()) + seq!['.']
    }
}

/// A name in its usual text form: "example.com.", or "." for the root.
pub open spec fn name_text(labels: Seq<Seq<u8>>) -> Seq<char> {
    if labels.len() == 0 {
        seq!['.']
    } else {
        labels_text(labels)
    }
}

impl DomainName {
    /// The name in its usual text form, each label followed by a dot ("example.com."; the root is
    /// "."), or `None` where a label is not UTF-8.
    pub fn to_text(&self) -> (r: core::option::Option<String>)
        ensures
            r is Some <==> all_utf8(self@),
            r is Some ==> r->0@ == name_text(self@),
    {
        let ghost s = self@;
        let mut out = String::new();
        if self.labels.len() == 0 {
            out.append(".");
            proof {
                reveal_strlit(".");
            }
            return Some(out);
        }
        let mut i: usize = 0;
        proof {
            assert(s.subrange(0, 0) =~= Seq::<Seq<u8>>::empty());
        }
        while i < self.labels.len()
            invariant
                0 <= i <= self.labels.len(),
                s == self@,
                s.len() > 0,
                out@ == labels_text(s.subrange(0, i as int)),
                forall|j: int| 0 <= j < i ==> valid_utf8(#[trigger] s[j]),
            decreases self.labels.len() - i,
        {
            proof {
                assert(s[i as int] =~= self.labels[i as int]@);
            }
            let text = match utf8_text(self.labels[i].as_slice()) {
                Some(t) => t,
                None => {
                    return None;
                },
            };
            out.append(text);
            out.append(".");
            proof {
                reveal_strlit(".");
                let next = s.subrange(0, i as int + 1);
                assert(next.drop_last() =~= s.subrange(0, i as int));
                assert(next.last() == s[i as int]);
            }
            i = i + 1;
        }
        proof {
            assert(s.subrange(0, i as int) =~= s);
        }
        Some(out)
    }
}

/// Whether the name at `pos` is written out in full: label after label up to the zero byte, with
/// no compression pointer.
pub open spec fn uncompressed_at(buf: Seq<u8>, pos: int) -> bool
    decreases buf.len() - pos,
{
    if !fits(buf, pos, 1) || pos < 0 {
        false
    } else if buf[pos] == 0 {
        true
    } else if buf[pos] <= 63 && fits(buf, pos + 1, buf[pos] as int) {
        uncompressed_at(buf, pos + 1 + buf[pos])
    } else {
        false
    }
}

/// A name read where it is written out in full is written back as the very bytes it was read from.
pub proof fn lemma_uncompressed_wire(buf: Seq<u8>, pos: int, hops: nat)
    requires
        uncompressed_at(buf, pos),
        labels_at(buf, pos, hops) is Ok,
    ensures
        writable_name(labels_at(buf, pos, hops)->Ok_0.0),
        crate::round_trip::stands_at(buf, pos, name_wire(labels_at(buf, pos, hops)->Ok_0.0)),
        labels_at(buf, pos, hops)->Ok_0.1 == pos + name_wire(labels_at(buf, pos, hops)->Ok_0.0).len(),
    decreases buf.len() - pos,
{
    let (labels, end) = labels_at(buf, pos, hops)->Ok_0;
    if buf[pos] == 0 {
        assert(labels =~= Seq::<Seq<u8>>::empty());
        assert(name_wire(labels) =~= seq![0u8]);
        assert(buf.subrange(pos, pos + 1) =~= seq![0u8]);
    } else {
        let n = buf[pos] as int;
        let label = buf.subrange(pos + 1, pos + 1 + n);
        let next = pos + 1 + n;
        lemma_uncompressed_wire(buf, next, hops);
        let rest = labels_at(buf, next, hops)->Ok_0.0;
        assert(labels == seq![label] + rest);
        assert(labels.drop_first() =~= rest);
        assert(labels[0] == label);
        let w = name_wire(labels);
        assert(w =~= seq![n as u8] + label + name_wire(rest));
        assert forall|k: int| 0 <= k < w.len() implies buf[pos + k] == w[k] by {
            if k == 0 {
            } else if k <= n {
                assert(buf[pos + k] == label[k - 1]);
            } else {
                assert(buf[pos + k] == buf.subrange(next, next + name_wire(rest).len())[k - 1 - n]);
            }
        }
        assert(buf.subrange(pos, pos + w.len()) =~= w);
        assert forall|i: int| 0 <= i < labels.len() implies label_len_ok(#[trigger] labels[i]) by {
            if i > 0 {
                assert(labels[i] == rest[i - 1]);
            }
        }
    }
}

} // verus!
