use vstd::prelude::*;

use crate::codes::{Class, OptionCode, Type};
use crate::domain_name::{
    lemma_labels_at_wire, lemma_uncompressed_wire, name_wire, uncompressed_at, valid_name, writable_name,
    DomainName,
};
use crate::round_trip::{
    lemma_read_u16, lemma_read_u32, lemma_stands_at_join, lemma_stands_at_split, lemma_write_u16,
    lemma_write_u32, stands_at, RoundTrip,
};
use crate::parser::{
    be_u16, be_u32, capped, fits, lemma_pos_nonneg, lemma_prepend_assoc, overflow, past_end, prepend, Parse, ParseError, Parser,
};
use crate::serializer::{
    all_writable, lemma_wrote_stop, lemma_wrote_then, many_wire, serialize_many, u16_bytes,
    u32_bytes, wrote, Serialize, SerializeError, Serializer, MAX_SIZE,
};

verus! {

/// The data of a record of one of the types that this codec reads field by field.
#[derive(Debug, Clone, PartialEq, Eq)]
pub enum Record {
    /// An IPv4 address (RFC 1035 section 3.4.1).
    A { address: [u8; 4] },
    /// An authoritative name server (RFC 1035 section 3.3.11).
    NS { nsdname: DomainName },
    /// The canonical name of an alias (RFC 1035 section 3.3.1).
    CNAME { cname: DomainName },
    /// The start of a zone of authority (RFC 1035 section 3.3.13).
    SOA {
        mname: DomainName,
        rname: DomainName,
        serial: u32,
        refresh: u32,
        retry: u32,
        expire: u32,
        minimum: u32,
    },
    /// A domain name pointer (RFC 1035 section 3.3.12).
    PTR { ptrdname: DomainName },
    /// A mail exchange (RFC 1035 section 3.3.9).
    MX { preference: u16, exchange: DomainName },
    /// Text (RFC 1035 section 3.3.14), kept as the raw record data.
    TXT { text: Vec<u8> },
    /// An IPv6 address (RFC 3596 section 2.2).
    AAAA { address: [u8; 16] },
}

/// What a `Record` holds.
pub enum RecordView {
    A { address: Seq<u8> },
    NS { nsdname: Seq<Seq<u8>> },
    CNAME { cname: Seq<Seq<u8>> },
    SOA {
        mname: Seq<Seq<u8>>,
        rname: Seq<Seq<u8>>,
        serial: u32,
        refresh: u32,
        retry: u32,
        expire: u32,
        minimum: u32,
    },
    PTR { ptrdname: Seq<Seq<u8>> },
    MX { preference: u16, exchange: Seq<Seq<u8>> },
    TXT { text: Seq<u8> },
    AAAA { address: Seq<u8> },
}

impl View for Record {
    type V = RecordView;

    open spec fn view(&self) -> RecordView {
        match self {
            Record::A { address } => RecordView::A { address: address@ },
            Record::NS { nsdname } => RecordView::NS { nsdname: nsdname@ },
            Record::CNAME { cname } => RecordView::CNAME { cname: cname@ },
            Record::SOA { mname, rname, serial, refresh, retry, expire, minimum } => RecordView::SOA {
                mname: mname@,
                rname: rname@,
                serial: *serial,
                refresh: *refresh,
                retry: *retry,
                expire: *expire,
                minimum: *minimum,
            },
            Record::PTR { ptrdname } => RecordView::PTR { ptrdname: ptrdname@ },
            Record::MX { preference, exchange } => RecordView::MX {
                preference: *preference,
                exchange: exchange@,
            },
            Record::TXT { text } => RecordView::TXT { text: text@ },
            Record::AAAA { address } => RecordView::AAAA { address: address@ },
        }
    }
}

/// The type of a record's data.
pub open spec fn record_type(d: RecordView) -> Type {
    match d {
        RecordView::A { .. } => Type::A,
        RecordView::NS { .. } => Type::NS,
        RecordView::CNAME { .. } => Type::CNAME,
        RecordView::SOA { .. } => Type::SOA,
        RecordView::PTR { .. } => Type::PTR,
        RecordView::MX { .. } => Type::MX,
        RecordView::TXT { .. } => Type::TXT,
        RecordView::AAAA { .. } => Type::AAAA,
    }
}

/// Whether records of type `t` are read field by field into a `Record`.
pub open spec fn is_modeled(t: Type) -> bool {
    t == Type::A || t == Type::NS || t == Type::CNAME || t == Type::SOA || t == Type::PTR || t
        == Type::MX || t == Type::TXT || t == Type::AAAA
}

/// The record data on the wire; names are written uncompressed.
pub open spec fn record_wire(d: RecordView) -> Seq<u8> {
    match d {
        RecordView::A { address } => address,
        RecordView::NS { nsdname } => name_wire(nsdname),
        RecordView::CNAME { cname } => name_wire(cname),
        RecordView::SOA { mname, rname, serial, refresh, retry, expire, minimum } => name_wire(mname)
            + name_wire(rname) + soa_numbers(serial, refresh, retry, expire, minimum),
        RecordView::PTR { ptrdname } => name_wire(ptrdname),
        RecordView::MX { preference, exchange } => u16_bytes(preference) + name_wire(exchange),
        RecordView::TXT { text } => text,
        RecordView::AAAA { address } => address,
    }
}

/// The five 32-bit fields that end an SOA record.
pub open spec fn soa_numbers(serial: u32, refresh: u32, retry: u32, expire: u32, minimum: u32) -> Seq<
    u8,
> {
    u32_bytes(serial) + u32_bytes(refresh) + u32_bytes(retry) + u32_bytes(expire) + u32_bytes(minimum)
}

/// Whether the names in a record's data can be written.
pub open spec fn record_writable(d: RecordView) -> bool {
    match d {
        RecordView::NS { nsdname } => writable_name(nsdname),
        RecordView::CNAME { cname } => writable_name(cname),
        RecordView::SOA { mname, rname, .. } => writable_name(mname) && writable_name(rname),
        RecordView::PTR { ptrdname } => writable_name(ptrdname),
        RecordView::MX { exchange, .. } => writable_name(exchange),
        _ => true,
    }
}

/// The ten bytes between a record's name and its data: type, class, TTL and data length.
pub open spec fn rr_fixed(rtype: u16, class: u16, ttl: u32, rdlength: u16) -> Seq<u8> {
    u16_bytes(rtype) + u16_bytes(class) + u32_bytes(ttl) + u16_bytes(rdlength)
}

/// Builds the ten bytes between a record's name and its data.
fn fixed_fields(rtype: u16, class: u16, ttl: u32, rdlength: u16) -> (r: [u8; 10])
    ensures
        r@ == rr_fixed(rtype, class, ttl, rdlength),
{
    let r: [u8; 10] = [
        (rtype / 0x100) as u8,
        (rtype % 0x100) as u8,
        (class / 0x100) as u8,
        (class % 0x100) as u8,
        (ttl / 0x1000000) as u8,
        (ttl / 0x10000 % 0x100) as u8,
        (ttl / 0x100 % 0x100) as u8,
        (ttl % 0x100) as u8,
        (rdlength / 0x100) as u8,
        (rdlength % 0x100) as u8,
    ];
    proof {
        assert(r@ =~= rr_fixed(rtype, class, ttl, rdlength));
    }
    r
}

/// `a + b + c`, or `usize::MAX` where that does not fit.
fn add3(a: usize, b: usize, c: usize) -> (r: usize)
    ensures
        r == capped(a + b + c),
{
    a.saturating_add(b).saturating_add(c)
}

impl Record {
    /// The number of bytes of the record's data on the wire (its RDLENGTH), or `usize::MAX` where
    /// that does not fit.
    pub fn size(&self) -> (r: usize)
        ensures
            r == capped(record_wire(self@).len() as int),
    {
        match self {
            Record::A { .. } => 4,
            Record::NS { nsdname } => nsdname.size().saturating_add(1),
            Record::CNAME { cname } => cname.size().saturating_add(1),
            Record::SOA { mname, rname, .. } => add3(
                mname.size().saturating_add(1),
                rname.size().saturating_add(1),
                20,
            ),
            Record::PTR { ptrdname } => ptrdname.size().saturating_add(1),
            Record::MX { exchange, .. } => exchange.size().saturating_add(3),
            Record::TXT { text } => text.len(),
            Record::AAAA { .. } => 16,
        }
    }

    /// The type of the record.
    pub fn record_type(&self) -> (r: Type)
        ensures
            r == record_type(self@),
    {
        match self {
            Record::A { .. } => Type::A,
            Record::NS { .. } => Type::NS,
            Record::CNAME { .. } => Type::CNAME,
            Record::SOA { .. } => Type::SOA,
            Record::PTR { .. } => Type::PTR,
            Record::MX { .. } => Type::MX,
            Record::TXT { .. } => Type::TXT,
            Record::AAAA { .. } => Type::AAAA,
        }
    }

    /// Writes the record's data.
    fn serialize_data(&self, serializer: &mut Serializer) -> (r: Result<usize, SerializeError>)
        ensures
            wrote(*old(serializer), *final(serializer), record_wire(self@), record_writable(self@), r),
    {
        let ghost s0 = *serializer;
        match self {
            Record::A { address } => {
                let r = serializer.write_bytes(address);
                match r {
                    Ok(()) => Ok(serializer.position()),
                    Err(e) => Err(e),
                }
            },
            Record::NS { nsdname } => nsdname.serialize(serializer),
            Record::CNAME { cname } => cname.serialize(serializer),
            Record::PTR { ptrdname } => ptrdname.serialize(serializer),
            Record::SOA { mname, rname, serial, refresh, retry, expire, minimum } => {
                let ghost w1 = name_wire(mname@);
                let ghost w2 = name_wire(rname@);
                let ghost w3 = soa_numbers(*serial, *refresh, *retry, *expire, *minimum);
                let r1 = mname.serialize(serializer);
                let ghost s1 = *serializer;
                if let Err(e) = r1 {
                    proof {
                        lemma_wrote_stop(s0, s1, w1, w2 + w3, writable_name(mname@), writable_name(rname@), r1);
                        assert(w1 + (w2 + w3) =~= w1 + w2 + w3);
                    }
                    return Err(e);
                }
                let r2 = rname.serialize(serializer);
                let ghost s2 = *serializer;
                proof {
                    lemma_wrote_then(s0, s1, s2, w1, w2, writable_name(mname@), writable_name(rname@), r1, r2);
                }
                if let Err(e) = r2 {
                    proof {
                        lemma_wrote_stop(s0, s2, w1 + w2, w3, writable_name(mname@) && writable_name(rname@), true, r2);
                    }
                    return Err(e);
                }
                let numbers: [u8; 20] = [
                    (*serial / 0x1000000) as u8,
                    (*serial / 0x10000 % 0x100) as u8,
                    (*serial / 0x100 % 0x100) as u8,
                    (*serial % 0x100) as u8,
                    (*refresh / 0x1000000) as u8,
                    (*refresh / 0x10000 % 0x100) as u8,
                    (*refresh / 0x100 % 0x100) as u8,
                    (*refresh % 0x100) as u8,
                    (*retry / 0x1000000) as u8,
                    (*retry / 0x10000 % 0x100) as u8,
                    (*retry / 0x100 % 0x100) as u8,
                    (*retry % 0x100) as u8,
                    (*expire / 0x1000000) as u8,
                    (*expire / 0x10000 % 0x100) as u8,
                    (*expire / 0x100 % 0x100) as u8,
                    (*expire % 0x100) as u8,
                    (*minimum / 0x1000000) as u8,
                    (*minimum / 0x10000 % 0x100) as u8,
                    (*minimum / 0x100 % 0x100) as u8,
                    (*minimum % 0x100) as u8,
                ];
                proof {
                    assert(numbers@ =~= w3);
                }
                let r3 = serializer.write_bytes(&numbers);
                proof {
                    lemma_wrote_then(s0, s2, *serializer, w1 + w2, w3, writable_name(mname@) && writable_name(rname@), true, r2, r3);
                }
                match r3 {
                    Ok(()) => Ok(serializer.position()),
                    Err(e) => Err(e),
                }
            },
            Record::MX { preference, exchange } => {
                let ghost w1 = u16_bytes(*preference);
                let ghost w2 = name_wire(exchange@);
                let r1 = serializer.write_u16(*preference);
                let ghost s1 = *serializer;
                if let Err(e) = r1 {
                    proof {
                        lemma_wrote_stop(s0, s1, w1, w2, true, writable_name(exchange@), r1);
                    }
                    return Err(e);
                }
                let r2 = exchange.serialize(serializer);
                proof {
                    lemma_wrote_then(s0, s1, *serializer, w1, w2, true, writable_name(exchange@), r1, r2);
                }
                r2
            },
            Record::TXT { text } => {
                let r = serializer.write_bytes(text.as_slice());
                match r {
                    Ok(()) => Ok(serializer.position()),
                    Err(e) => Err(e),
                }
            },
            Record::AAAA { address } => {
                let r = serializer.write_bytes(address);
                match r {
                    Ok(()) => Ok(serializer.position()),
                    Err(e) => Err(e),
                }
            },
        }
    }
}

/// One option of an OPT pseudo-record (RFC 6891 section 6.1.2): a code, the length of its data,
/// and the data. The length written is always the data's own length.
#[derive(Debug, Clone, PartialEq, Eq)]
pub enum Option {
    Unknown { code: OptionCode, len: u16, data: Vec<u8> },
}

/// What an `Option` holds.
pub enum OptionView {
    Unknown { code: OptionCode, len: u16, data: Seq<u8> },
}

impl View for Option {
    type V = OptionView;

    open spec fn view(&self) -> OptionView {
        match self {
            Option::Unknown { code, len, data } => OptionView::Unknown {
                code: *code,
                len: *len,
                data: data@,
            },
        }
    }
}

/// The four bytes before an option's data: its code and the data's length.
pub open spec fn option_head(o: OptionView) -> Seq<u8> {
    match o {
        OptionView::Unknown { code, data, .. } => u16_bytes(code.spec_to_u16()) + u16_bytes(
            data.len() as u16,
        ),
    }
}

/// The data of an option.
pub open spec fn option_data(o: OptionView) -> Seq<u8> {
    match o {
        OptionView::Unknown { data, .. } => data,
    }
}

impl Option {
    /// The number of bytes of the option on the wire, or `usize::MAX` where that does not fit.
    pub fn size(&self) -> (r: usize)
        ensures
            r == capped(4 + option_data(self@).len() as int),
    {
        match self {
            Option::Unknown { data, .. } => data.len().saturating_add(4),
        }
    }
}

impl Serialize for Option {
    open spec fn spec_wire(v: OptionView) -> Seq<u8> {
        option_head(v) + option_data(v)
    }

    open spec fn spec_writable(v: OptionView) -> bool {
        true
    }

    fn serialize(&self, serializer: &mut Serializer) -> (r: Result<usize, SerializeError>) {
        let ghost s0 = *serializer;
        match self {
            Option::Unknown { code, data, .. } => {
                if data.len() > 0xFFFF {
                    proof {
                        assert(serializer.bytes().subrange(0, serializer.bytes().len() as int)
                            =~= serializer.bytes());
                    }
                    return Err(
                        SerializeError::BufferOverflow(
                            serializer.position().saturating_add(data.len()),
                            MAX_SIZE,
                        ),
                    );
                }
                let c = code.to_u16();
                let n = data.len() as u16;
                let head: [u8; 4] = [(c / 0x100) as u8, (c % 0x100) as u8, (n / 0x100) as u8, (n % 0x100) as u8];
                proof {
                    assert(head@ =~= option_head(self@));
                }
                let r1 = serializer.write_bytes(&head);
                let ghost s1 = *serializer;
                if let Err(e) = r1 {
                    proof {
                        lemma_wrote_stop(s0, s1, head@, data@, true, true, r1);
                    }
                    return Err(e);
                }
                let r2 = serializer.write_bytes(data.as_slice());
                proof {
                    lemma_wrote_then(s0, s1, *serializer, head@, data@, true, true, r1, r2);
                }
                match r2 {
                    Ok(()) => Ok(serializer.position()),
                    Err(e) => Err(e),
                }
            },
        }
    }
}

/// A resource record (RFC 1035 section 4.1.3), by its role.
#[derive(Debug, Clone, PartialEq, Eq)]
pub enum ResourceRecord {
    /// A record of one of the types in `Record`; its class is always IN.
    Record { name: DomainName, ttl: u32, data: Record },
    /// The OPT pseudo-record of EDNS0 (RFC 6891): the class field holds the UDP payload size, the
    /// TTL field the extended response code, version and flags. Its name is always the root.
    OPTRecord { size: u16, flags: u32, options: Vec<Option> },
    /// A record of any other type, with its data kept as bytes.
    Unknown { name: DomainName, rtype: Type, class: Class, ttl: u32, data: Vec<u8> },
}

/// What a `ResourceRecord` holds.
pub enum ResourceRecordView {
    Record { name: Seq<Seq<u8>>, ttl: u32, data: RecordView },
    OPTRecord { size: u16, flags: u32, options: Seq<OptionView> },
    Unknown { name: Seq<Seq<u8>>, rtype: Type, class: Class, ttl: u32, data: Seq<u8> },
}

impl View for ResourceRecord {
    type V = ResourceRecordView;

    open spec fn view(&self) -> ResourceRecordView {
        match self {
            ResourceRecord::Record { name, ttl, data } => ResourceRecordView::Record {
                name: name@,
                ttl: *ttl,
                data: data@,
            },
            ResourceRecord::OPTRecord { size, flags, options } => ResourceRecordView::OPTRecord {
                size: *size,
                flags: *flags,
                options: options@.map_values(|o: Option| o@),
            },
            ResourceRecord::Unknown { name, rtype, class, ttl, data } => ResourceRecordView::Unknown {
                name: name@,
                rtype: *rtype,
                class: *class,
                ttl: *ttl,
                data: data@,
            },
        }
    }
}

/// The options of an OPT record on the wire.
pub open spec fn options_wire(options: Seq<OptionView>) -> Seq<u8> {
    many_wire::<Option>(options)
}

/// The name of a record on the wire; an OPT record has the root name.
pub open spec fn rr_name_wire(v: ResourceRecordView) -> Seq<u8> {
    match v {
        ResourceRecordView::Record { name, .. } => name_wire(name),
        ResourceRecordView::OPTRecord { .. } => seq![0u8],
        ResourceRecordView::Unknown { name, .. } => name_wire(name),
    }
}

/// The data of a record on the wire, whose length the RDLENGTH field holds.
pub open spec fn rr_data_wire(v: ResourceRecordView) -> Seq<u8> {
    match v {
        ResourceRecordView::Record { data, .. } => record_wire(data),
        ResourceRecordView::OPTRecord { options, .. } => options_wire(options),
        ResourceRecordView::Unknown { data, .. } => data,
    }
}

/// The ten bytes between the name and the data of a record, with the RDLENGTH of its data.
pub open spec fn rr_fixed_wire(v: ResourceRecordView) -> Seq<u8> {
    let rdlength = rr_data_wire(v).len() as u16;
    match v {
        ResourceRecordView::Record { ttl, data, .. } => rr_fixed(
            record_type(data).spec_to_u16(),
            Class::IN.spec_to_u16(),
            ttl,
            rdlength,
        ),
        ResourceRecordView::OPTRecord { size, flags, .. } => rr_fixed(
            Type::OPT.spec_to_u16(),
            size,
            flags,
            rdlength,
        ),
        ResourceRecordView::Unknown { rtype, class, ttl, .. } => rr_fixed(
            rtype.spec_to_u16(),
            class.spec_to_u16(),
            ttl,
            rdlength,
        ),
    }
}

/// Whether the names of a record can be written.
pub open spec fn rr_name_writable(v: ResourceRecordView) -> bool {
    match v {
        ResourceRecordView::Record { name, .. } => writable_name(name),
        ResourceRecordView::OPTRecord { .. } => true,
        ResourceRecordView::Unknown { name, .. } => writable_name(name),
    }
}

/// Whether the data of a record can be written.
pub open spec fn rr_data_writable(v: ResourceRecordView) -> bool {
    match v {
        ResourceRecordView::Record { data, .. } => record_writable(data),
        _ => true,
    }
}

impl ResourceRecord {
    /// The type of the record.
    pub fn record_type(&self) -> (r: Type)
        ensures
            r == match self@ {
                ResourceRecordView::Record { data, .. } => record_type(data),
                ResourceRecordView::OPTRecord { .. } => Type::OPT,
                ResourceRecordView::Unknown { rtype, .. } => rtype,
            },
    {
        match self {
            ResourceRecord::Record { data, .. } => data.record_type(),
            ResourceRecord::OPTRecord { .. } => Type::OPT,
            ResourceRecord::Unknown { rtype, .. } => *rtype,
        }
    }

    /// The length of the record's data on the wire, or `usize::MAX` where that does not fit.
    fn data_size(&self) -> (r: usize)
        ensures
            r == capped(rr_data_wire(self@).len() as int),
    {
        match self {
            ResourceRecord::Record { data, .. } => data.size(),
            ResourceRecord::OPTRecord { options, .. } => {
                let ghost vs = options@.map_values(|o: Option| o@);
                let mut total: usize = 0;
                let mut i: usize = 0;
                proof {
                    assert(vs.subrange(0, 0) =~= Seq::<OptionView>::empty());
                }
                while i < options.len()
                    invariant
                        0 <= i <= options.len(),
                        vs == options@.map_values(|o: Option| o@),
                        total == capped(options_wire(vs.subrange(0, i as int)).len() as int),
                    decreases options.len() - i,
                {
                    proof {
                        let one = seq![vs[i as int]];
                        assert(vs.subrange(0, i as int + 1) =~= vs.subrange(0, i as int) + one);
                        crate::serializer::lemma_many_wire_split::<Option>(vs.subrange(0, i as int), one);
                        assert(one.drop_first() =~= Seq::<OptionView>::empty());
                        assert(many_wire::<Option>(one.drop_first()) =~= Seq::<u8>::empty());
                        assert(one[0] == options[i as int]@);
                    }
                    total = total.saturating_add(options[i].size());
                    i = i + 1;
                }
                proof {
                    assert(vs.subrange(0, i as int) =~= vs);
                }
                total
            },
            ResourceRecord::Unknown { data, .. } => data.len(),
        }
    }

    /// Writes the name of the record.
    fn serialize_name(&self, serializer: &mut Serializer) -> (r: Result<usize, SerializeError>)
        ensures
            wrote(*old(serializer), *final(serializer), rr_name_wire(self@), rr_name_writable(self@), r),
    {
        match self {
            ResourceRecord::Record { name, .. } => name.serialize(serializer),
            ResourceRecord::OPTRecord { .. } => {
                let r = serializer.write_u8(0);
                match r {
                    Ok(()) => Ok(serializer.position()),
                    Err(e) => Err(e),
                }
            },
            ResourceRecord::Unknown { name, .. } => name.serialize(serializer),
        }
    }

    /// Writes the data of the record.
    fn serialize_data(&self, serializer: &mut Serializer) -> (r: Result<usize, SerializeError>)
        ensures
            wrote(*old(serializer), *final(serializer), rr_data_wire(self@), rr_data_writable(self@), r),
    {
        match self {
            ResourceRecord::Record { data, .. } => data.serialize_data(serializer),
            ResourceRecord::OPTRecord { options, .. } => {
                let r = serialize_many(options, serializer);
                proof {
                    assert(all_writable::<Option>(options@.map_values(|o: Option| o@)));
                }
                r
            },
            ResourceRecord::Unknown { data, .. } => {
                let r = serializer.write_bytes(data.as_slice());
                match r {
                    Ok(()) => Ok(serializer.position()),
                    Err(e) => Err(e),
                }
            },
        }
    }
}

impl Serialize for ResourceRecord {
    open spec fn spec_wire(v: ResourceRecordView) -> Seq<u8> {
        rr_name_wire(v) + rr_fixed_wire(v) + rr_data_wire(v)
    }

    open spec fn spec_writable(v: ResourceRecordView) -> bool {
        rr_name_writable(v) && rr_data_writable(v)
    }

    /// Writes the record. Its RDLENGTH is the length of the data as written here, whatever the
    /// record came from.
    fn serialize(&self, serializer: &mut Serializer) -> (r: Result<usize, SerializeError>) {
        let ghost s0 = *serializer;
        let ghost v = self@;
        let ghost w1 = rr_name_wire(v);
        let ghost w2 = rr_fixed_wire(v);
        let ghost w3 = rr_data_wire(v);
        let ghost ok1 = rr_name_writable(v);
        let ghost ok3 = rr_data_writable(v);
        let size = self.data_size();
        if size > 0xFFFF {
            proof {
                assert(serializer.bytes().subrange(0, serializer.bytes().len() as int)
                    =~= serializer.bytes());
            }
            return Err(
                SerializeError::BufferOverflow(serializer.position().saturating_add(size), MAX_SIZE),
            );
        }
        let (rtype, class, ttl) = match self {
            ResourceRecord::Record { ttl, data, .. } => (
                data.record_type().to_u16(),
                Class::IN.to_u16(),
                *ttl,
            ),
            ResourceRecord::OPTRecord { size, flags, .. } => (Type::OPT.to_u16(), *size, *flags),
            ResourceRecord::Unknown { rtype, class, ttl, .. } => (rtype.to_u16(), class.to_u16(), *ttl),
        };
        let fixed = fixed_fields(rtype, class, ttl, size as u16);
        proof {
            assert(fixed@ == w2);
        }
        let r1 = self.serialize_name(serializer);
        let ghost s1 = *serializer;
        if let Err(e) = r1 {
            proof {
                lemma_wrote_stop(s0, s1, w1, w2 + w3, ok1, ok3, r1);
                assert(w1 + (w2 + w3) =~= w1 + w2 + w3);
            }
            return Err(e);
        }
        let r2 = serializer.write_bytes(&fixed);
        let ghost s2 = *serializer;
        proof {
            lemma_wrote_then(s0, s1, s2, w1, w2, ok1, true, r1, r2);
        }
        if let Err(e) = r2 {
            proof {
                lemma_wrote_stop(s0, s2, w1 + w2, w3, ok1 && true, ok3, r2);
            }
            return Err(e);
        }
        let r3 = self.serialize_data(serializer);
        proof {
            lemma_wrote_then(s0, s2, *serializer, w1 + w2, w3, ok1 && true, ok3, r2, r3);
        }
        match r3 {
            Ok(_) => Ok(serializer.position()),
            Err(e) => Err(e),
        }
    }
}

/// Reads the options of an OPT record that has `rem` bytes of data left at `pos` of `buf`. An
/// option that would run past the record's data is refused.
pub open spec fn options_at(buf: Seq<u8>, pos: int, rem: int) -> Result<(Seq<OptionView>, int), ParseError>
    decreases rem,
{
    if rem <= 0 {
        Ok((Seq::empty(), pos))
    } else if !fits(buf, pos, 4) {
        Err(past_end(buf, pos))
    } else {
        let len = be_u16(buf, pos + 2) as int;
        if 4 + len > rem {
            Err(ParseError::OptionLengthMismatch)
        } else if !fits(buf, pos + 4, len) {
            Err(overflow(buf, pos + 4, len))
        } else {
            prepend(
                seq![
                    OptionView::Unknown {
                        code: OptionCode::spec_from_u16(be_u16(buf, pos)),
                        len: len as u16,
                        data: buf.subrange(pos + 4, pos + 4 + len),
                    },
                ],
                options_at(buf, pos + 4 + len, rem - 4 - len),
            )
        }
    }
}

/// Reads the data of a record of type `t`, one of the types in `Record`, whose RDLENGTH is
/// `rdlen`, at `pos` of `buf`. Addresses must have exactly their size; names are read as they
/// stand, compressed or not.
pub open spec fn rdata_at(buf: Seq<u8>, pos: int, t: Type, rdlen: int) -> Result<(RecordView, int), ParseError> {
    match t {
        Type::A => if !fits(buf, pos, rdlen) {
            Err(overflow(buf, pos, rdlen))
        } else if rdlen != 4 {
            Err(ParseError::FormatError)
        } else {
            Ok((RecordView::A { address: buf.subrange(pos, pos + 4) }, pos + 4))
        },
        Type::AAAA => if !fits(buf, pos, rdlen) {
            Err(overflow(buf, pos, rdlen))
        } else if rdlen != 16 {
            Err(ParseError::FormatError)
        } else {
            Ok((RecordView::AAAA { address: buf.subrange(pos, pos + 16) }, pos + 16))
        },
        Type::TXT => if !fits(buf, pos, rdlen) {
            Err(overflow(buf, pos, rdlen))
        } else {
            Ok((RecordView::TXT { text: buf.subrange(pos, pos + rdlen) }, pos + rdlen))
        },
        Type::NS => match DomainName::spec_parse(buf, pos) {
            Ok((n, end)) => Ok((RecordView::NS { nsdname: n }, end)),
            Err(e) => Err(e),
        },
        Type::CNAME => match DomainName::spec_parse(buf, pos) {
            Ok((n, end)) => Ok((RecordView::CNAME { cname: n }, end)),
            Err(e) => Err(e),
        },
        Type::PTR => match DomainName::spec_parse(buf, pos) {
            Ok((n, end)) => Ok((RecordView::PTR { ptrdname: n }, end)),
            Err(e) => Err(e),
        },
        Type::MX => if !fits(buf, pos, 2) {
            Err(past_end(buf, pos))
        } else {
            match DomainName::spec_parse(buf, pos + 2) {
                Ok((n, end)) => Ok((RecordView::MX { preference: be_u16(buf, pos), exchange: n }, end)),
                Err(e) => Err(e),
            }
        },
        Type::SOA => match DomainName::spec_parse(buf, pos) {
            Err(e) => Err(e),
            Ok((m, p1)) => match DomainName::spec_parse(buf, p1) {
                Err(e) => Err(e),
                Ok((r, p2)) => if !fits(buf, p2, 20) {
                    Err(past_end(buf, p2))
                } else {
                    Ok(
                        (
                            RecordView::SOA {
                                mname: m,
                                rname: r,
                                serial: be_u32(buf, p2),
                                refresh: be_u32(buf, p2 + 4),
                                retry: be_u32(buf, p2 + 8),
                                expire: be_u32(buf, p2 + 12),
                                minimum: be_u32(buf, p2 + 16),
                            },
                            p2 + 20,
                        ),
                    )
                },
            },
        },
        _ => Err(ParseError::NotImplemented),
    }
}

/// Reads the options of an OPT record whose data has `rdlen` bytes.
fn parse_options(parser: &mut Parser, rdlen: u16) -> (r: Result<Vec<Option>, ParseError>)
    ensures
        final(parser).data() == old(parser).data(),
        match options_at(old(parser).data(), old(parser).pos(), rdlen as int) {
            Ok((vs, end)) => r is Ok && r->Ok_0@.map_values(|o: Option| o@) == vs && final(parser).pos()
                == end,
            Err(e) => r == Err::<Vec<Option>, ParseError>(e),
        },
{
    let ghost buf = parser.data();
    let ghost start = parser.pos();
    let mut options: Vec<Option> = Vec::new();
    let mut rem: usize = rdlen as usize;
    proof {
        lemma_prepend_assoc(Seq::<OptionView>::empty(), Seq::<OptionView>::empty(), options_at(buf, start, rdlen as int));
        assert(options@.map_values(|o: Option| o@) =~= Seq::<OptionView>::empty());
    }
    loop
        invariant
            parser.data() == buf,
            buf == old(parser).data(),
            start == old(parser).pos(),
            options_at(buf, start, rdlen as int) == prepend(
                options@.map_values(|o: Option| o@),
                options_at(buf, parser.pos(), rem as int),
            ),
        decreases rem,
    {
        if rem == 0 {
            proof {
                let vs = options@.map_values(|o: Option| o@);
                assert(vs + Seq::<OptionView>::empty() =~= vs);
            }
            return Ok(options);
        }
        if parser.remaining() < 4 {
            return Err(ParseError::BufferOverflow(parser.buffer_len(), parser.buffer_len()));
        }
        let code = parser.consume_u16()?;
        let len = parser.consume_u16()?;
        if len as usize + 4 > rem {
            return Err(ParseError::OptionLengthMismatch);
        }
        let bytes = parser.consume_bytes(len as usize)?;
        let option = Option::Unknown {
            code: OptionCode::from_u16(code),
            len,
            data: vstd::slice::slice_to_vec(bytes),
        };
        let ghost before = options@.map_values(|o: Option| o@);
        let ghost v = option@;
        options.push(option);
        rem = rem - 4 - len as usize;
        proof {
            assert(options@.map_values(|o: Option| o@) =~= before + seq![v]);
            lemma_prepend_assoc(before, seq![v], options_at(buf, parser.pos(), rem as int));
        }
    }
}

impl Record {
    /// Reads the data of a record of type `rtype`, one of the types in `Record`.
    fn parse_data(parser: &mut Parser, rtype: Type, rdlen: u16) -> (r: Result<Record, ParseError>)
        requires
            is_modeled(rtype),
        ensures
            final(parser).data() == old(parser).data(),
            match rdata_at(old(parser).data(), old(parser).pos(), rtype, rdlen as int) {
                Ok((v, end)) => r is Ok && r->Ok_0@ == v && final(parser).pos() == end,
                Err(e) => r == Err::<Record, ParseError>(e),
            },
    {
        match rtype {
            Type::A => {
                proof {
                    lemma_pos_nonneg(*parser);
                }
                let b = parser.consume_bytes(rdlen as usize)?;
                if b.len() != 4 {
                    return Err(ParseError::FormatError);
                }
                let address: [u8; 4] = [b[0], b[1], b[2], b[3]];
                proof {
                    assert(address@ =~= b@);
                }
                Ok(Record::A { address })
            },
            Type::AAAA => {
                proof {
                    lemma_pos_nonneg(*parser);
                }
                let b = parser.consume_bytes(rdlen as usize)?;
                if b.len() != 16 {
                    return Err(ParseError::FormatError);
                }
                let address: [u8; 16] = [
                    b[0], b[1], b[2], b[3], b[4], b[5], b[6], b[7],
                    b[8], b[9], b[10], b[11], b[12], b[13], b[14], b[15],
                ];
                proof {
                    assert(address@ =~= b@);
                }
                Ok(Record::AAAA { address })
            },
            Type::TXT => {
                let b = parser.consume_bytes(rdlen as usize)?;
                Ok(Record::TXT { text: vstd::slice::slice_to_vec(b) })
            },
            Type::NS => Ok(Record::NS { nsdname: DomainName::parse(parser)? }),
            Type::CNAME => Ok(Record::CNAME { cname: DomainName::parse(parser)? }),
            Type::PTR => Ok(Record::PTR { ptrdname: DomainName::parse(parser)? }),
            Type::MX => {
                let preference = parser.consume_u16()?;
                let exchange = DomainName::parse(parser)?;
                Ok(Record::MX { preference, exchange })
            },
            _ => {
                let mname = DomainName::parse(parser)?;
                let rname = DomainName::parse(parser)?;
                if parser.remaining() < 20 {
                    return Err(ParseError::BufferOverflow(parser.buffer_len(), parser.buffer_len()));
                }
                let serial = parser.consume_u32()?;
                let refresh = parser.consume_u32()?;
                let retry = parser.consume_u32()?;
                let expire = parser.consume_u32()?;
                let minimum = parser.consume_u32()?;
                Ok(Record::SOA { mname, rname, serial, refresh, retry, expire, minimum })
            },
        }
    }
}

impl Parse for ResourceRecord {
    open spec fn spec_parse(buf: Seq<u8>, pos: int) -> Result<(ResourceRecordView, int), ParseError> {
        match DomainName::spec_parse(buf, pos) {
            Err(e) => Err(e),
            Ok((name, p)) => if !fits(buf, p, 10) {
                Err(past_end(buf, p))
            } else {
                let t = Type::spec_from_u16(be_u16(buf, p));
                let c = be_u16(buf, p + 2);
                let ttl = be_u32(buf, p + 4);
                let rdlen = be_u16(buf, p + 8) as int;
                let q = p + 10;
                if t == Type::OPT {
                    match options_at(buf, q, rdlen) {
                        Ok((options, end)) => Ok(
                            (ResourceRecordView::OPTRecord { size: c, flags: ttl, options }, end),
                        ),
                        Err(e) => Err(e),
                    }
                } else if is_modeled(t) {
                    match rdata_at(buf, q, t, rdlen) {
                        Ok((data, end)) => Ok((ResourceRecordView::Record { name, ttl, data }, end)),
                        Err(e) => Err(e),
                    }
                } else if !fits(buf, q, rdlen) {
                    Err(overflow(buf, q, rdlen))
                } else {
                    Ok(
                        (
                            ResourceRecordView::Unknown {
                                name,
                                rtype: t,
                                class: Class::spec_from_u16(c),
                                ttl,
                                data: buf.subrange(q, q + rdlen),
                            },
                            q + rdlen,
                        ),
                    )
                }
            },
        }
    }

    /// Reads a record. The name of an OPT record is read and not kept: it is always the root.
    fn parse(parser: &mut Parser) -> (r: Result<ResourceRecord, ParseError>) {
        let name = DomainName::parse(parser)?;
        if parser.remaining() < 10 {
            return Err(ParseError::BufferOverflow(parser.buffer_len(), parser.buffer_len()));
        }
        let rtype = Type::from_u16(parser.consume_u16()?);
        let class = parser.consume_u16()?;
        let ttl = parser.consume_u32()?;
        let rdlen = parser.consume_u16()?;
        match rtype {
            Type::OPT => {
                let options = parse_options(parser, rdlen)?;
                Ok(ResourceRecord::OPTRecord { size: class, flags: ttl, options })
            },
            Type::A | Type::NS | Type::CNAME | Type::SOA | Type::PTR | Type::MX | Type::TXT | Type::AAAA => {
                let data = Record::parse_data(parser, rtype, rdlen)?;
                Ok(ResourceRecord::Record { name, ttl, data })
            },
            _ => {
                let data = parser.consume_bytes(rdlen as usize)?;
                Ok(
                    ResourceRecord::Unknown {
                        name,
                        rtype,
                        class: Class::from_u16(class),
                        ttl,
                        data: vstd::slice::slice_to_vec(data),
                    },
                )
            },
        }
    }
}

/// Whether a record's data survives being written and read back: addresses have their size,
/// names are valid, and the data fits in an RDLENGTH.
pub open spec fn record_valid(d: RecordView) -> bool {
    &&& match d {
        RecordView::A { address } => address.len() == 4,
        RecordView::AAAA { address } => address.len() == 16,
        RecordView::NS { nsdname } => valid_name(nsdname),
        RecordView::CNAME { cname } => valid_name(cname),
        RecordView::SOA { mname, rname, .. } => valid_name(mname) && valid_name(rname),
        RecordView::PTR { ptrdname } => valid_name(ptrdname),
        RecordView::MX { exchange, .. } => valid_name(exchange),
        RecordView::TXT { .. } => true,
    }
    &&& record_wire(d).len() <= 0xFFFF
}

/// Whether an option survives being written and read back: its length field is its data's
/// length, and its code is the one its value reads as.
pub open spec fn option_valid(o: OptionView) -> bool {
    match o {
        OptionView::Unknown { code, len, data } => {
            &&& len == data.len()
            &&& OptionCode::spec_from_u16(code.spec_to_u16()) == code
        },
    }
}

/// Where a name stands at `pos`, it reads back as itself.
proof fn lemma_name_back(buf: Seq<u8>, pos: int, name: Seq<Seq<u8>>)
    requires
        valid_name(name),
        stands_at(buf, pos, name_wire(name)),
    ensures
        DomainName::spec_parse(buf, pos) == Ok::<(Seq<Seq<u8>>, int), ParseError>(
            (name, pos + name_wire(name).len()),
        ),
        writable_name(name),
{
    lemma_labels_at_wire(buf, pos, name, buf.len() as nat);
}

/// The data of a valid record reads back as itself.
proof fn lemma_rdata_back(buf: Seq<u8>, pos: int, d: RecordView)
    requires
        record_valid(d),
        stands_at(buf, pos, record_wire(d)),
    ensures
        record_writable(d),
        rdata_at(buf, pos, record_type(d), record_wire(d).len() as int) == Ok::<(RecordView, int), ParseError>(
            (d, pos + record_wire(d).len()),
        ),
{
    let w = record_wire(d);
    match d {
        RecordView::A { address } => {
            assert(buf.subrange(pos, pos + 4) =~= address);
        },
        RecordView::AAAA { address } => {
            assert(buf.subrange(pos, pos + 16) =~= address);
        },
        RecordView::TXT { text } => {},
        RecordView::NS { nsdname } => {
            lemma_name_back(buf, pos, nsdname);
        },
        RecordView::CNAME { cname } => {
            lemma_name_back(buf, pos, cname);
        },
        RecordView::PTR { ptrdname } => {
            lemma_name_back(buf, pos, ptrdname);
        },
        RecordView::MX { preference, exchange } => {
            lemma_stands_at_split(buf, pos, u16_bytes(preference), name_wire(exchange));
            lemma_read_u16(buf, pos, preference);
            lemma_name_back(buf, pos + 2, exchange);
        },
        RecordView::SOA { mname, rname, serial, refresh, retry, expire, minimum } => {
            let w1 = name_wire(mname);
            let w2 = name_wire(rname);
            let p1 = pos + w1.len();
            let p2 = p1 + w2.len();
            lemma_stands_at_split(buf, pos, w1 + w2, soa_numbers(serial, refresh, retry, expire, minimum));
            lemma_stands_at_split(buf, pos, w1, w2);
            lemma_name_back(buf, pos, mname);
            lemma_name_back(buf, p1, rname);
            let n = soa_numbers(serial, refresh, retry, expire, minimum);
            lemma_stands_at_split(buf, p2, u32_bytes(serial) + u32_bytes(refresh) + u32_bytes(retry) + u32_bytes(expire), u32_bytes(minimum));
            lemma_stands_at_split(buf, p2, u32_bytes(serial) + u32_bytes(refresh) + u32_bytes(retry), u32_bytes(expire));
            lemma_stands_at_split(buf, p2, u32_bytes(serial) + u32_bytes(refresh), u32_bytes(retry));
            lemma_stands_at_split(buf, p2, u32_bytes(serial), u32_bytes(refresh));
            lemma_read_u32(buf, p2, serial);
            lemma_read_u32(buf, p2 + 4, refresh);
            lemma_read_u32(buf, p2 + 8, retry);
            lemma_read_u32(buf, p2 + 12, expire);
            lemma_read_u32(buf, p2 + 16, minimum);
        },
    }
}

/// Valid options written one after the other read back as themselves, using up exactly their
/// bytes.
proof fn lemma_options_back(buf: Seq<u8>, pos: int, options: Seq<OptionView>)
    requires
        forall|i: int| 0 <= i < options.len() ==> option_valid(#[trigger] options[i]),
        stands_at(buf, pos, options_wire(options)),
    ensures
        options_at(buf, pos, options_wire(options).len() as int) == Ok::<(Seq<OptionView>, int), ParseError>(
            (options, pos + options_wire(options).len()),
        ),
    decreases options.len(),
{
    if options.len() == 0 {
        assert(options =~= Seq::<OptionView>::empty());
    } else {
        let o = options[0];
        let rest = options.drop_first();
        assert(option_valid(o));
        let OptionView::Unknown { code, len, data } = o;
        let head = option_head(o);
        assert(options_wire(options) == head + data + options_wire(rest));
        lemma_stands_at_split(buf, pos, head + data, options_wire(rest));
        lemma_stands_at_split(buf, pos, head, data);
        lemma_stands_at_split(buf, pos, u16_bytes(code.spec_to_u16()), u16_bytes(data.len() as u16));
        lemma_read_u16(buf, pos, code.spec_to_u16());
        lemma_read_u16(buf, pos + 2, data.len() as u16);
        assert(buf.subrange(pos + 4, pos + 4 + data.len()) =~= data);
        assert forall|i: int| 0 <= i < rest.len() implies option_valid(#[trigger] rest[i]) by {
            assert(rest[i] == options[i + 1]);
        }
        lemma_options_back(buf, pos + 4 + data.len(), rest);
        assert(seq![o] + rest =~= options);
    }
}

/// The facts that reading a record back starts from: its name, fixed fields and data stand one
/// after the other at `pos`.
spec fn parts_stand_at(buf: Seq<u8>, pos: int, v: ResourceRecordView) -> bool {
    &&& stands_at(buf, pos, rr_name_wire(v))
    &&& stands_at(buf, pos + rr_name_wire(v).len(), rr_fixed_wire(v))
    &&& stands_at(buf, pos + rr_name_wire(v).len() + rr_fixed_wire(v).len(), rr_data_wire(v))
}

proof fn lemma_typed_back(buf: Seq<u8>, pos: int, v: ResourceRecordView)
    requires
        v is Record,
        ResourceRecord::spec_valid(v),
        parts_stand_at(buf, pos, v),
    ensures
        ResourceRecord::spec_writable(v),
        ResourceRecord::spec_parse(buf, pos) == Ok::<(ResourceRecordView, int), ParseError>(
            (v, pos + ResourceRecord::spec_wire(v).len()),
        ),
{
    if let ResourceRecordView::Record { name, ttl, data } = v {
        let p = pos + rr_name_wire(v).len();
        let rdlength = rr_data_wire(v).len() as u16;
        lemma_name_back(buf, pos, name);
        let t = record_type(data).spec_to_u16();
        lemma_stands_at_split(buf, p, u16_bytes(t) + u16_bytes(1) + u32_bytes(ttl), u16_bytes(rdlength));
        lemma_stands_at_split(buf, p, u16_bytes(t) + u16_bytes(1), u32_bytes(ttl));
        lemma_stands_at_split(buf, p, u16_bytes(t), u16_bytes(1));
        lemma_read_u16(buf, p, t);
        lemma_read_u32(buf, p + 4, ttl);
        lemma_read_u16(buf, p + 8, rdlength);
        assert(Type::spec_from_u16(t) == record_type(data));
        lemma_rdata_back(buf, p + 10, data);
    }
}

proof fn lemma_opt_back(buf: Seq<u8>, pos: int, v: ResourceRecordView)
    requires
        v is OPTRecord,
        ResourceRecord::spec_valid(v),
        parts_stand_at(buf, pos, v),
    ensures
        ResourceRecord::spec_writable(v),
        ResourceRecord::spec_parse(buf, pos) == Ok::<(ResourceRecordView, int), ParseError>(
            (v, pos + ResourceRecord::spec_wire(v).len()),
        ),
{
    if let ResourceRecordView::OPTRecord { size, flags, options } = v {
        let p = pos + 1;
        let rdlength = rr_data_wire(v).len() as u16;
        assert(buf[pos] == rr_name_wire(v)[0]);
        assert(DomainName::spec_parse(buf, pos) == Ok::<(Seq<Seq<u8>>, int), ParseError>(
            (Seq::empty(), pos + 1),
        ));
        lemma_stands_at_split(buf, p, u16_bytes(41) + u16_bytes(size) + u32_bytes(flags), u16_bytes(rdlength));
        lemma_stands_at_split(buf, p, u16_bytes(41) + u16_bytes(size), u32_bytes(flags));
        lemma_stands_at_split(buf, p, u16_bytes(41), u16_bytes(size));
        lemma_read_u16(buf, p, 41);
        lemma_read_u16(buf, p + 2, size);
        lemma_read_u32(buf, p + 4, flags);
        lemma_read_u16(buf, p + 8, rdlength);
        lemma_options_back(buf, p + 10, options);
    }
}

proof fn lemma_unknown_back(buf: Seq<u8>, pos: int, v: ResourceRecordView)
    requires
        v is Unknown,
        ResourceRecord::spec_valid(v),
        parts_stand_at(buf, pos, v),
    ensures
        ResourceRecord::spec_writable(v),
        ResourceRecord::spec_parse(buf, pos) == Ok::<(ResourceRecordView, int), ParseError>(
            (v, pos + ResourceRecord::spec_wire(v).len()),
        ),
{
    if let ResourceRecordView::Unknown { name, rtype, class, ttl, data } = v {
        let p = pos + rr_name_wire(v).len();
        let q = p + 10;
        let rdlength = rr_data_wire(v).len() as u16;
        lemma_name_back(buf, pos, name);
        let t = rtype.spec_to_u16();
        let c = class.spec_to_u16();
        lemma_stands_at_split(buf, p, u16_bytes(t) + u16_bytes(c) + u32_bytes(ttl), u16_bytes(rdlength));
        lemma_stands_at_split(buf, p, u16_bytes(t) + u16_bytes(c), u32_bytes(ttl));
        lemma_stands_at_split(buf, p, u16_bytes(t), u16_bytes(c));
        lemma_read_u16(buf, p, t);
        lemma_read_u16(buf, p + 2, c);
        lemma_read_u32(buf, p + 4, ttl);
        lemma_read_u16(buf, p + 8, rdlength);
        assert(buf.subrange(q, q + data.len()) =~= data);
    }
}

/// Whether the data of a record of type `t` with RDLENGTH `rdlen` is written at `pos` the way this
/// codec writes it: its names are written out in full, and it takes up exactly RDLENGTH bytes.
pub open spec fn rdata_canonical_at(buf: Seq<u8>, pos: int, t: Type, rdlen: int) -> bool {
    &&& match rdata_at(buf, pos, t, rdlen) {
        Ok((_, end)) => end == pos + rdlen,
        Err(_) => true,
    }
    &&& match t {
        Type::NS => uncompressed_at(buf, pos),
        Type::CNAME => uncompressed_at(buf, pos),
        Type::PTR => uncompressed_at(buf, pos),
        Type::MX => uncompressed_at(buf, pos + 2),
        Type::SOA => uncompressed_at(buf, pos) && match DomainName::spec_parse(buf, pos) {
            Ok((_, p1)) => uncompressed_at(buf, p1),
            Err(_) => true,
        },
        _ => true,
    }
}

/// The MX case of `lemma_rdata_wire_of_parse`.
proof fn lemma_mx_wire_of_parse(buf: Seq<u8>, pos: int, rdlen: int)
    requires
        0 <= pos,
        0 <= rdlen,
        rdata_canonical_at(buf, pos, Type::MX, rdlen),
        rdata_at(buf, pos, Type::MX, rdlen) is Ok,
    ensures
        ({
            let (d, end) = rdata_at(buf, pos, Type::MX, rdlen)->Ok_0;
            &&& record_writable(d)
            &&& record_type(d) == Type::MX
            &&& stands_at(buf, pos, record_wire(d))
            &&& end == pos + record_wire(d).len()
        }),
{
    let d = rdata_at(buf, pos, Type::MX, rdlen)->Ok_0.0;
    lemma_uncompressed_wire(buf, pos + 2, buf.len() as nat);
    lemma_write_u16(buf, pos);
    if let RecordView::MX { preference, exchange } = d {
        lemma_stands_at_join(buf, pos, u16_bytes(preference), name_wire(exchange));
    }
}

/// The SOA case of `lemma_rdata_wire_of_parse`.
proof fn lemma_soa_wire_of_parse(buf: Seq<u8>, pos: int, rdlen: int)
    requires
        0 <= pos,
        0 <= rdlen,
        rdata_canonical_at(buf, pos, Type::SOA, rdlen),
        rdata_at(buf, pos, Type::SOA, rdlen) is Ok,
    ensures
        ({
            let (d, end) = rdata_at(buf, pos, Type::SOA, rdlen)->Ok_0;
            &&& record_writable(d)
            &&& record_type(d) == Type::SOA
            &&& stands_at(buf, pos, record_wire(d))
            &&& end == pos + record_wire(d).len()
        }),
{
    let d = rdata_at(buf, pos, Type::SOA, rdlen)->Ok_0.0;
    let h = buf.len() as nat;
        lemma_uncompressed_wire(buf, pos, h);
        let (m, p1) = DomainName::spec_parse(buf, pos)->Ok_0;
        lemma_uncompressed_wire(buf, p1, h);
        let (r, p2) = DomainName::spec_parse(buf, p1)->Ok_0;
        lemma_write_u32(buf, p2);
        lemma_write_u32(buf, p2 + 4);
        lemma_write_u32(buf, p2 + 8);
        lemma_write_u32(buf, p2 + 12);
        lemma_write_u32(buf, p2 + 16);
        if let RecordView::SOA { mname, rname, serial, refresh, retry, expire, minimum } = d {
            lemma_stands_at_join(buf, p2, u32_bytes(serial), u32_bytes(refresh));
            lemma_stands_at_join(buf, p2, u32_bytes(serial) + u32_bytes(refresh), u32_bytes(retry));
            lemma_stands_at_join(buf, p2, u32_bytes(serial) + u32_bytes(refresh) + u32_bytes(retry), u32_bytes(expire));
            lemma_stands_at_join(buf, p2, u32_bytes(serial) + u32_bytes(refresh) + u32_bytes(retry) + u32_bytes(expire), u32_bytes(minimum));
            lemma_stands_at_join(buf, pos, name_wire(mname), name_wire(rname));
            lemma_stands_at_join(buf, pos, name_wire(mname) + name_wire(rname), soa_numbers(serial, refresh, retry, expire, minimum));
        }
    
}/// Record data read where it is written canonically is written back as the very bytes it was
/// read from.
proof fn lemma_rdata_wire_of_parse(buf: Seq<u8>, pos: int, t: Type, rdlen: int)
    requires
        0 <= pos,
        0 <= rdlen,
        is_modeled(t),
        rdata_canonical_at(buf, pos, t, rdlen),
        rdata_at(buf, pos, t, rdlen) is Ok,
    ensures
        ({
            let (d, end) = rdata_at(buf, pos, t, rdlen)->Ok_0;
            &&& record_writable(d)
            &&& record_type(d) == t
            &&& stands_at(buf, pos, record_wire(d))
            &&& end == pos + record_wire(d).len()
        }),
{
    let (d, end) = rdata_at(buf, pos, t, rdlen)->Ok_0;
    let h = buf.len() as nat;
    match t {
        Type::A => {
            let a = buf.subrange(pos, pos + 4);
            assert(rdlen == 4 && fits(buf, pos, 4));
            assert(d == RecordView::A { address: a });
            assert(record_wire(d) == a && a.len() == 4);
        },
        Type::AAAA => {},
        Type::TXT => {},
        Type::NS => {
            lemma_uncompressed_wire(buf, pos, h);
        },
        Type::CNAME => {
            lemma_uncompressed_wire(buf, pos, h);
        },
        Type::PTR => {
            lemma_uncompressed_wire(buf, pos, h);
        },
        Type::MX => lemma_mx_wire_of_parse(buf, pos, rdlen),
        _ => lemma_soa_wire_of_parse(buf, pos, rdlen),
    }
}

/// Options read from `rem` bytes of record data are written back as the very bytes they were
/// read from, and take up all of them.
proof fn lemma_options_wire_of_parse(buf: Seq<u8>, pos: int, rem: int)
    requires
        0 <= pos <= buf.len(),
        0 <= rem,
        options_at(buf, pos, rem) is Ok,
    ensures
        ({
            let (options, end) = options_at(buf, pos, rem)->Ok_0;
            &&& stands_at(buf, pos, options_wire(options))
            &&& options_wire(options).len() == rem
            &&& end == pos + rem
        }),
    decreases rem,
{
    let (options, end) = options_at(buf, pos, rem)->Ok_0;
    if rem == 0 {
        assert(options =~= Seq::<OptionView>::empty());
        assert(buf.subrange(pos, pos) =~= Seq::<u8>::empty());
    } else {
        let len = be_u16(buf, pos + 2) as int;
        let next = pos + 4 + len;
        lemma_options_wire_of_parse(buf, next, rem - 4 - len);
        let rest = options_at(buf, next, rem - 4 - len)->Ok_0.0;
        let o = OptionView::Unknown {
            code: OptionCode::spec_from_u16(be_u16(buf, pos)),
            len: len as u16,
            data: buf.subrange(pos + 4, pos + 4 + len),
        };
        assert(options == seq![o] + rest);
        assert(options.drop_first() =~= rest);
        assert(options[0] == o);
        crate::codes::lemma_codes_round_trip(be_u16(buf, pos), 0);
        lemma_write_u16(buf, pos);
        lemma_write_u16(buf, pos + 2);
        lemma_stands_at_join(buf, pos, u16_bytes(be_u16(buf, pos)), u16_bytes(be_u16(buf, pos + 2)));
        assert(option_head(o) == u16_bytes(be_u16(buf, pos)) + u16_bytes(be_u16(buf, pos + 2)));
        lemma_stands_at_join(buf, pos, option_head(o), option_data(o));
        assert(options_wire(options) == option_head(o) + option_data(o) + options_wire(rest));
        lemma_stands_at_join(buf, pos, option_head(o) + option_data(o), options_wire(rest));
    }
}

/// Whether a record is written at `pos` the way this codec writes it: its names are written out in
/// full (an OPT record's as the single zero byte of the root), a record of a type in `Record` has
/// class IN, and its data takes up exactly RDLENGTH bytes.
pub open spec fn rr_canonical_at(buf: Seq<u8>, pos: int) -> bool {
    match DomainName::spec_parse(buf, pos) {
        Err(_) => true,
        Ok((_, p)) => {
            let t = Type::spec_from_u16(be_u16(buf, p));
            if t == Type::OPT {
                buf[pos] == 0
            } else {
                &&& uncompressed_at(buf, pos)
                &&& is_modeled(t) ==> be_u16(buf, p + 2) == 1 && rdata_canonical_at(
                    buf,
                    p + 10,
                    t,
                    be_u16(buf, p + 8) as int,
                )
            }
        },
    }
}

/// The ten bytes after a record's name are the fixed fields read from them.
proof fn lemma_fixed_wire_of_parse(buf: Seq<u8>, p: int)
    requires
        0 <= p,
        fits(buf, p, 10),
    ensures
        stands_at(buf, p, rr_fixed(be_u16(buf, p), be_u16(buf, p + 2), be_u32(buf, p + 4), be_u16(buf, p + 8))),
        Type::spec_from_u16(be_u16(buf, p)).spec_to_u16() == be_u16(buf, p),
        Class::spec_from_u16(be_u16(buf, p + 2)).spec_to_u16() == be_u16(buf, p + 2),
{
    crate::codes::lemma_codes_round_trip(be_u16(buf, p), 0);
    crate::codes::lemma_codes_round_trip(be_u16(buf, p + 2), 0);
    lemma_write_u16(buf, p);
    lemma_write_u16(buf, p + 2);
    lemma_write_u32(buf, p + 4);
    lemma_write_u16(buf, p + 8);
    let f0 = u16_bytes(be_u16(buf, p));
    let f1 = u16_bytes(be_u16(buf, p + 2));
    let f2 = u32_bytes(be_u32(buf, p + 4));
    let f3 = u16_bytes(be_u16(buf, p + 8));
    lemma_stands_at_join(buf, p, f0, f1);
    lemma_stands_at_join(buf, p, f0 + f1, f2);
    lemma_stands_at_join(buf, p, f0 + f1 + f2, f3);
}

/// The OPT case of `lemma_wire_of_parse`.
proof fn lemma_opt_wire_of_parse(buf: Seq<u8>, pos: int)
    requires
        0 <= pos,
        rr_canonical_at(buf, pos),
        ResourceRecord::spec_parse(buf, pos) is Ok,
        Type::spec_from_u16(be_u16(buf, DomainName::spec_parse(buf, pos)->Ok_0.1)) == Type::OPT,
    ensures
        ResourceRecord::spec_writable(ResourceRecord::spec_parse(buf, pos)->Ok_0.0),
        stands_at(buf, pos, ResourceRecord::spec_wire(ResourceRecord::spec_parse(buf, pos)->Ok_0.0)),
        ResourceRecord::spec_parse(buf, pos)->Ok_0.1 == pos + ResourceRecord::spec_wire(
            ResourceRecord::spec_parse(buf, pos)->Ok_0.0,
        ).len(),
{
    let v = ResourceRecord::spec_parse(buf, pos)->Ok_0.0;
    let p = pos + 1;
    assert(DomainName::spec_parse(buf, pos)->Ok_0.1 == p);
    assert(buf.subrange(pos, pos + 1) =~= seq![0u8]);
    lemma_fixed_wire_of_parse(buf, p);
    lemma_options_wire_of_parse(buf, p + 10, be_u16(buf, p + 8) as int);
    assert(rr_fixed_wire(v) == rr_fixed(be_u16(buf, p), be_u16(buf, p + 2), be_u32(buf, p + 4), be_u16(buf, p + 8)));
    lemma_stands_at_join(buf, pos, rr_name_wire(v), rr_fixed_wire(v));
    lemma_stands_at_join(buf, pos, rr_name_wire(v) + rr_fixed_wire(v), rr_data_wire(v));
}

/// The case of `lemma_wire_of_parse` for the types in `Record`.
proof fn lemma_typed_wire_of_parse(buf: Seq<u8>, pos: int)
    requires
        0 <= pos,
        rr_canonical_at(buf, pos),
        ResourceRecord::spec_parse(buf, pos) is Ok,
        is_modeled(Type::spec_from_u16(be_u16(buf, DomainName::spec_parse(buf, pos)->Ok_0.1))),
    ensures
        ResourceRecord::spec_writable(ResourceRecord::spec_parse(buf, pos)->Ok_0.0),
        stands_at(buf, pos, ResourceRecord::spec_wire(ResourceRecord::spec_parse(buf, pos)->Ok_0.0)),
        ResourceRecord::spec_parse(buf, pos)->Ok_0.1 == pos + ResourceRecord::spec_wire(
            ResourceRecord::spec_parse(buf, pos)->Ok_0.0,
        ).len(),
{
    let v = ResourceRecord::spec_parse(buf, pos)->Ok_0.0;
    let p = DomainName::spec_parse(buf, pos)->Ok_0.1;
    let t = Type::spec_from_u16(be_u16(buf, p));
    lemma_uncompressed_wire(buf, pos, buf.len() as nat);
    lemma_fixed_wire_of_parse(buf, p);
    lemma_rdata_wire_of_parse(buf, p + 10, t, be_u16(buf, p + 8) as int);
    assert(rr_fixed_wire(v) == rr_fixed(be_u16(buf, p), be_u16(buf, p + 2), be_u32(buf, p + 4), be_u16(buf, p + 8)));
    lemma_stands_at_join(buf, pos, rr_name_wire(v), rr_fixed_wire(v));
    lemma_stands_at_join(buf, pos, rr_name_wire(v) + rr_fixed_wire(v), rr_data_wire(v));
}

/// The case of `lemma_wire_of_parse` for any other type.
proof fn lemma_unknown_wire_of_parse(buf: Seq<u8>, pos: int)
    requires
        0 <= pos,
        rr_canonical_at(buf, pos),
        ResourceRecord::spec_parse(buf, pos) is Ok,
        Type::spec_from_u16(be_u16(buf, DomainName::spec_parse(buf, pos)->Ok_0.1)) != Type::OPT,
        !is_modeled(Type::spec_from_u16(be_u16(buf, DomainName::spec_parse(buf, pos)->Ok_0.1))),
    ensures
        ResourceRecord::spec_writable(ResourceRecord::spec_parse(buf, pos)->Ok_0.0),
        stands_at(buf, pos, ResourceRecord::spec_wire(ResourceRecord::spec_parse(buf, pos)->Ok_0.0)),
        ResourceRecord::spec_parse(buf, pos)->Ok_0.1 == pos + ResourceRecord::spec_wire(
            ResourceRecord::spec_parse(buf, pos)->Ok_0.0,
        ).len(),
{
    let v = ResourceRecord::spec_parse(buf, pos)->Ok_0.0;
    let p = DomainName::spec_parse(buf, pos)->Ok_0.1;
    lemma_uncompressed_wire(buf, pos, buf.len() as nat);
    lemma_fixed_wire_of_parse(buf, p);
    assert(rr_fixed_wire(v) == rr_fixed(be_u16(buf, p), be_u16(buf, p + 2), be_u32(buf, p + 4), be_u16(buf, p + 8)));
    lemma_stands_at_join(buf, pos, rr_name_wire(v), rr_fixed_wire(v));
    lemma_stands_at_join(buf, pos, rr_name_wire(v) + rr_fixed_wire(v), rr_data_wire(v));
}

impl RoundTrip for ResourceRecord {
    open spec fn spec_valid(v: ResourceRecordView) -> bool {
        match v {
            ResourceRecordView::Record { name, data, .. } => valid_name(name) && record_valid(data),
            ResourceRecordView::OPTRecord { options, .. } => {
                &&& forall|i: int| 0 <= i < options.len() ==> option_valid(#[trigger] options[i])
                &&& options_wire(options).len() <= 0xFFFF
            },
            ResourceRecordView::Unknown { name, rtype, class, data, .. } => {
                &&& valid_name(name)
                &&& Type::spec_from_u16(rtype.spec_to_u16()) == rtype
                &&& !is_modeled(rtype)
                &&& rtype != Type::OPT
                &&& Class::spec_from_u16(class.spec_to_u16()) == class
                &&& data.len() <= 0xFFFF
            },
        }
    }

    proof fn lemma_round_trip(buf: Seq<u8>, pos: int, v: ResourceRecordView) {
        lemma_stands_at_split(buf, pos, rr_name_wire(v) + rr_fixed_wire(v), rr_data_wire(v));
        lemma_stands_at_split(buf, pos, rr_name_wire(v), rr_fixed_wire(v));
        match v {
            ResourceRecordView::Record { .. } => lemma_typed_back(buf, pos, v),
            ResourceRecordView::OPTRecord { .. } => lemma_opt_back(buf, pos, v),
            ResourceRecordView::Unknown { .. } => lemma_unknown_back(buf, pos, v),
        }
    }

    open spec fn spec_canonical_at(buf: Seq<u8>, pos: int) -> bool {
        rr_canonical_at(buf, pos)
    }

    proof fn lemma_wire_of_parse(buf: Seq<u8>, pos: int) {
        let p = DomainName::spec_parse(buf, pos)->Ok_0.1;
        let t = Type::spec_from_u16(be_u16(buf, p));
        if t == Type::OPT {
            lemma_opt_wire_of_parse(buf, pos);
        } else if is_modeled(t) {
            lemma_typed_wire_of_parse(buf, pos);
        } else {
            lemma_unknown_wire_of_parse(buf, pos);
        }
    }

}

/// RDLENGTH integrity: in the bytes that a record is written as, the RDLENGTH field holds the
/// number of bytes of data that follow it, whatever the record came from. (A record whose data
/// does not fit in 16 bits is never written: see `wrote`.)
#[verifier::rlimit(60)]
pub proof fn lemma_rdlength_integrity(v: ResourceRecordView)
    requires
        rr_data_wire(v).len() <= 0xFFFF,
    ensures
        ({
            let w = ResourceRecord::spec_wire(v);
            let n = rr_name_wire(v).len() as int;
            crate::parser::be_u16(w, n + 8) == w.len() - (n + 10)
        }),
        match v {
            ResourceRecordView::Record { data, .. } => rr_data_wire(v) == record_wire(data),
            _ => true,
        },
{
    let w = ResourceRecord::spec_wire(v);
    let w1 = rr_name_wire(v);
    let w2 = rr_fixed_wire(v);
    let w3 = rr_data_wire(v);
    let n = w1.len() as int;
    assert(w.subrange(0, w.len() as int) =~= w);
    lemma_stands_at_split(w, 0, w1 + w2, w3);
    lemma_stands_at_split(w, 0, w1, w2);
    let len = w3.len() as u16;
    let (t, c, ttl) = match v {
        ResourceRecordView::Record { ttl, data, .. } => (record_type(data).spec_to_u16(), 1u16, ttl),
        ResourceRecordView::OPTRecord { size, flags, .. } => (41u16, size, flags),
        ResourceRecordView::Unknown { rtype, class, ttl, .. } => (rtype.spec_to_u16(), class.spec_to_u16(), ttl),
    };
    assert(w2 == rr_fixed(t, c, ttl, len));
    lemma_stands_at_split(w, n, u16_bytes(t) + u16_bytes(c) + u32_bytes(ttl), u16_bytes(len));
    lemma_read_u16(w, n + 8, len);
}

} // verus!
