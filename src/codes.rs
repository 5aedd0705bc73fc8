use vstd::prelude::*;

verus! {

/// A DNS resource record type.
#[derive(Debug, Clone, Copy, PartialEq, Eq, Structural)]
pub enum Type {
    /// IPv4 host address (RFC 1035).
    A,
    /// Authoritative name server (RFC 1035).
    NS,
    /// Canonical name of an alias (RFC 1035).
    CNAME,
    /// Start of a zone of authority (RFC 1035).
    SOA,
    /// Domain name pointer (RFC 1035).
    PTR,
    /// Mail exchange (RFC 1035).
    MX,
    /// Text strings (RFC 1035).
    TXT,
    /// IPv6 host address (RFC 3596).
    AAAA,
    /// Service locator (RFC 2782).
    SRV,
    /// EDNS0 pseudo-record (RFC 6891).
    OPT,
    /// Delegation signer (RFC 4034).
    DS,
    /// Record set signature (RFC 4034).
    RRSIG,
    /// Next secure record (RFC 4034).
    NSEC,
    /// DNS public key (RFC 4034).
    DNSKEY,
    /// Hashed next secure record (RFC 5155).
    NSEC3,
    /// NSEC3 parameters (RFC 5155).
    NSEC3PARAM,
    /// Service binding (RFC 9460).
    SVCB,
    /// HTTPS service binding (RFC 9460).
    HTTPS,
    /// Certification authority authorization (RFC 8659).
    CAA,
    /// Any other value, kept as it is.
    Unknown(u16),
}

impl Type {
    /// The code that a wire value `v` stands for.
    pub open spec fn spec_from_u16(v: u16) -> Type {
        match v {
            1 => Type::A,
            2 => Type::NS,
            5 => Type::CNAME,
            6 => Type::SOA,
            12 => Type::PTR,
            15 => Type::MX,
            16 => Type::TXT,
            28 => Type::AAAA,
            33 => Type::SRV,
            41 => Type::OPT,
            43 => Type::DS,
            46 => Type::RRSIG,
            47 => Type::NSEC,
            48 => Type::DNSKEY,
            50 => Type::NSEC3,
            51 => Type::NSEC3PARAM,
            64 => Type::SVCB,
            65 => Type::HTTPS,
            257 => Type::CAA,
            _ => Type::Unknown(v),
        }
    }

    /// The wire value of the code.
    pub open spec fn spec_to_u16(self) -> u16 {
        match self {
            Type::A => 1,
            Type::NS => 2,
            Type::CNAME => 5,
            Type::SOA => 6,
            Type::PTR => 12,
            Type::MX => 15,
            Type::TXT => 16,
            Type::AAAA => 28,
            Type::SRV => 33,
            Type::OPT => 41,
            Type::DS => 43,
            Type::RRSIG => 46,
            Type::NSEC => 47,
            Type::DNSKEY => 48,
            Type::NSEC3 => 50,
            Type::NSEC3PARAM => 51,
            Type::SVCB => 64,
            Type::HTTPS => 65,
            Type::CAA => 257,
            Type::Unknown(x) => x,
        }
    }

    pub fn from_u16(v: u16) -> (r: Type)
        ensures
            r == Type::spec_from_u16(v),
    {
        match v {
            1 => Type::A,
            2 => Type::NS,
            5 => Type::CNAME,
            6 => Type::SOA,
            12 => Type::PTR,
            15 => Type::MX,
            16 => Type::TXT,
            28 => Type::AAAA,
            33 => Type::SRV,
            41 => Type::OPT,
            43 => Type::DS,
            46 => Type::RRSIG,
            47 => Type::NSEC,
            48 => Type::DNSKEY,
            50 => Type::NSEC3,
            51 => Type::NSEC3PARAM,
            64 => Type::SVCB,
            65 => Type::HTTPS,
            257 => Type::CAA,
            _ => Type::Unknown(v),
        }
    }

    pub fn to_u16(&self) -> (r: u16)
        ensures
            r == self.spec_to_u16(),
    {
        match self {
            Type::A => 1,
            Type::NS => 2,
            Type::CNAME => 5,
            Type::SOA => 6,
            Type::PTR => 12,
            Type::MX => 15,
            Type::TXT => 16,
            Type::AAAA => 28,
            Type::SRV => 33,
            Type::OPT => 41,
            Type::DS => 43,
            Type::RRSIG => 46,
            Type::NSEC => 47,
            Type::DNSKEY => 48,
            Type::NSEC3 => 50,
            Type::NSEC3PARAM => 51,
            Type::SVCB => 64,
            Type::HTTPS => 65,
            Type::CAA => 257,
            Type::Unknown(x) => *x,
        }
    }
}

/// A DNS class. Any value that names no class is kept as it is: in an OPT record the class field holds the UDP payload size.
#[derive(Debug, Clone, Copy, PartialEq, Eq, Structural)]
pub enum Class {
    /// The Internet (RFC 1035).
    IN,
    /// Chaos (RFC 1035).
    CH,
    /// Hesiod (RFC 1035).
    HS,
    /// No class (RFC 2136).
    NONE,
    /// Any class (RFC 1035).
    ANY,
    /// Any other value, kept as it is.
    OPT(u16),
}

impl Class {
    /// The code that a wire value `v` stands for.
    pub open spec fn spec_from_u16(v: u16) -> Class {
        match v {
            1 => Class::IN,
            3 => Class::CH,
            4 => Class::HS,
            254 => Class::NONE,
            255 => Class::ANY,
            _ => Class::OPT(v),
        }
    }

    /// The wire value of the code.
    pub open spec fn spec_to_u16(self) -> u16 {
        match self {
            Class::IN => 1,
            Class::CH => 3,
            Class::HS => 4,
            Class::NONE => 254,
            Class::ANY => 255,
            Class::OPT(x) => x,
        }
    }

    pub fn from_u16(v: u16) -> (r: Class)
        ensures
            r == Class::spec_from_u16(v),
    {
        match v {
            1 => Class::IN,
            3 => Class::CH,
            4 => Class::HS,
            254 => Class::NONE,
            255 => Class::ANY,
            _ => Class::OPT(v),
        }
    }

    pub fn to_u16(&self) -> (r: u16)
        ensures
            r == self.spec_to_u16(),
    {
        match self {
            Class::IN => 1,
            Class::CH => 3,
            Class::HS => 4,
            Class::NONE => 254,
            Class::ANY => 255,
            Class::OPT(x) => *x,
        }
    }
}

/// The code of an EDNS0 option.
#[derive(Debug, Clone, Copy, PartialEq, Eq, Structural)]
pub enum OptionCode {
    /// Reserved (RFC 6891).
    Zero,
    /// Long-lived queries (RFC 8764).
    LLQ,
    /// Update lease.
    UL,
    /// Name server identifier (RFC 5001).
    NSID,
    /// DNSSEC algorithms understood (RFC 6975).
    DAU,
    /// DS hash understood (RFC 6975).
    DHU,
    /// NSEC3 hash understood (RFC 6975).
    N3U,
    /// Client subnet (RFC 7871).
    Subnet,
    /// Zone expiry (RFC 7314).
    Expire,
    /// DNS cookie (RFC 7873).
    Cookie,
    /// TCP keepalive (RFC 7828).
    Keepalive,
    /// Padding (RFC 7830).
    Padding,
    /// Chain query (RFC 7901).
    Chain,
    /// Extended DNS error (RFC 8914).
    ExtendedError,
    /// Error report channel (RFC 9567).
    ReportChannel,
    /// Zone version (RFC 9660).
    ZoneVersion,
    /// Any other value, kept as it is.
    Unknown(u16),
}

impl OptionCode {
    /// The code that a wire value `v` stands for.
    pub open spec fn spec_from_u16(v: u16) -> OptionCode {
        match v {
            0 => OptionCode::Zero,
            1 => OptionCode::LLQ,
            2 => OptionCode::UL,
            3 => OptionCode::NSID,
            5 => OptionCode::DAU,
            6 => OptionCode::DHU,
            7 => OptionCode::N3U,
            8 => OptionCode::Subnet,
            9 => OptionCode::Expire,
            10 => OptionCode::Cookie,
            11 => OptionCode::Keepalive,
            12 => OptionCode::Padding,
            13 => OptionCode::Chain,
            15 => OptionCode::ExtendedError,
            18 => OptionCode::ReportChannel,
            19 => OptionCode::ZoneVersion,
            _ => OptionCode::Unknown(v),
        }
    }

    /// The wire value of the code.
    pub open spec fn spec_to_u16(self) -> u16 {
        match self {
            OptionCode::Zero => 0,
            OptionCode::LLQ => 1,
            OptionCode::UL => 2,
            OptionCode::NSID => 3,
            OptionCode::DAU => 5,
            OptionCode::DHU => 6,
            OptionCode::N3U => 7,
            OptionCode::Subnet => 8,
            OptionCode::Expire => 9,
            OptionCode::Cookie => 10,
            OptionCode::Keepalive => 11,
            OptionCode::Padding => 12,
            OptionCode::Chain => 13,
            OptionCode::ExtendedError => 15,
            OptionCode::ReportChannel => 18,
            OptionCode::ZoneVersion => 19,
            OptionCode::Unknown(x) => x,
        }
    }

    pub fn from_u16(v: u16) -> (r: OptionCode)
        ensures
            r == OptionCode::spec_from_u16(v),
    {
        match v {
            0 => OptionCode::Zero,
            1 => OptionCode::LLQ,
            2 => OptionCode::UL,
            3 => OptionCode::NSID,
            5 => OptionCode::DAU,
            6 => OptionCode::DHU,
            7 => OptionCode::N3U,
            8 => OptionCode::Subnet,
            9 => OptionCode::Expire,
            10 => OptionCode::Cookie,
            11 => OptionCode::Keepalive,
            12 => OptionCode::Padding,
            13 => OptionCode::Chain,
            15 => OptionCode::ExtendedError,
            18 => OptionCode::ReportChannel,
            19 => OptionCode::ZoneVersion,
            _ => OptionCode::Unknown(v),
        }
    }

    pub fn to_u16(&self) -> (r: u16)
        ensures
            r == self.spec_to_u16(),
    {
        match self {
            OptionCode::Zero => 0,
            OptionCode::LLQ => 1,
            OptionCode::UL => 2,
            OptionCode::NSID => 3,
            OptionCode::DAU => 5,
            OptionCode::DHU => 6,
            OptionCode::N3U => 7,
            OptionCode::Subnet => 8,
            OptionCode::Expire => 9,
            OptionCode::Cookie => 10,
            OptionCode::Keepalive => 11,
            OptionCode::Padding => 12,
            OptionCode::Chain => 13,
            OptionCode::ExtendedError => 15,
            OptionCode::ReportChannel => 18,
            OptionCode::ZoneVersion => 19,
            OptionCode::Unknown(x) => *x,
        }
    }
}

/// The kind of query in a message header.
#[derive(Debug, Clone, Copy, PartialEq, Eq, Structural)]
pub enum OpCode {
    /// Standard query (RFC 1035).
    Query,
    /// Server status request (RFC 1035).
    Status,
    /// Zone change notification (RFC 1996).
    Notify,
    /// Dynamic update (RFC 2136).
    Update,
    /// DNS stateful operations (RFC 8490).
    DSO,
    /// Any other value, kept as it is.
    Unknown(u8),
}

impl OpCode {
    /// The code that a wire value `v` stands for.
    pub open spec fn spec_from_u8(v: u8) -> OpCode {
        match v {
            0 => OpCode::Query,
            2 => OpCode::Status,
            4 => OpCode::Notify,
            5 => OpCode::Update,
            6 => OpCode::DSO,
            _ => OpCode::Unknown(v),
        }
    }

    /// The wire value of the code.
    pub open spec fn spec_to_u8(self) -> u8 {
        match self {
            OpCode::Query => 0,
            OpCode::Status => 2,
            OpCode::Notify => 4,
            OpCode::Update => 5,
            OpCode::DSO => 6,
            OpCode::Unknown(x) => x,
        }
    }

    pub fn from_u8(v: u8) -> (r: OpCode)
        ensures
            r == OpCode::spec_from_u8(v),
    {
        match v {
            0 => OpCode::Query,
            2 => OpCode::Status,
            4 => OpCode::Notify,
            5 => OpCode::Update,
            6 => OpCode::DSO,
            _ => OpCode::Unknown(v),
        }
    }

    pub fn to_u8(&self) -> (r: u8)
        ensures
            r == self.spec_to_u8(),
    {
        match self {
            OpCode::Query => 0,
            OpCode::Status => 2,
            OpCode::Notify => 4,
            OpCode::Update => 5,
            OpCode::DSO => 6,
            OpCode::Unknown(x) => *x,
        }
    }
}

/// A response code.
#[derive(Debug, Clone, Copy, PartialEq, Eq, Structural)]
pub enum RCode {
    /// No error (RFC 1035).
    NoError,
    /// Format error (RFC 1035).
    FormatErr,
    /// Server failure (RFC 1035).
    ServFail,
    /// Non-existent domain (RFC 1035).
    NXDomain,
    /// Not implemented (RFC 1035).
    NotImp,
    /// Query refused (RFC 1035).
    Refused,
    /// Name exists when it should not (RFC 2136).
    YXDomain,
    /// Record set exists when it should not (RFC 2136).
    YXRRSet,
    /// Record set that should exist does not (RFC 2136).
    NXRRSet,
    /// Not authoritative, or not authorized (RFC 2136, RFC 8945).
    NotAuth,
    /// Name not contained in zone (RFC 2136).
    NotZone,
    /// DSO type not implemented (RFC 8490).
    DSOTYPENI,
    /// Bad OPT version (RFC 6891). Shares its value with `BADSIG`, which is what that value reads as.
    BADVERS,
    /// TSIG signature failure (RFC 8945).
    BADSIG,
    /// Key not recognized (RFC 8945).
    BADKEY,
    /// Signature out of time window (RFC 8945).
    BADTIME,
    /// Bad TKEY mode (RFC 2930).
    BADMODE,
    /// Duplicate key name (RFC 2930).
    BADNAME,
    /// Algorithm not supported (RFC 2930).
    BADALG,
    /// Bad truncation (RFC 8945).
    BADTRUNC,
    /// Bad or missing server cookie (RFC 7873).
    BADCOOKIE,
    /// Any other value, kept as it is.
    Unknown(u8),
}

impl RCode {
    /// The code that a wire value `v` stands for.
    pub open spec fn spec_from_u8(v: u8) -> RCode {
        match v {
            0 => RCode::NoError,
            1 => RCode::FormatErr,
            2 => RCode::ServFail,
            3 => RCode::NXDomain,
            4 => RCode::NotImp,
            5 => RCode::Refused,
            6 => RCode::YXDomain,
            7 => RCode::YXRRSet,
            8 => RCode::NXRRSet,
            9 => RCode::NotAuth,
            10 => RCode::NotZone,
            11 => RCode::DSOTYPENI,
            16 => RCode::BADSIG,
            17 => RCode::BADKEY,
            18 => RCode::BADTIME,
            19 => RCode::BADMODE,
            20 => RCode::BADNAME,
            21 => RCode::BADALG,
            22 => RCode::BADTRUNC,
            23 => RCode::BADCOOKIE,
            _ => RCode::Unknown(v),
        }
    }

    /// The wire value of the code.
    pub open spec fn spec_to_u8(self) -> u8 {
        match self {
            RCode::NoError => 0,
            RCode::FormatErr => 1,
            RCode::ServFail => 2,
            RCode::NXDomain => 3,
            RCode::NotImp => 4,
            RCode::Refused => 5,
            RCode::YXDomain => 6,
            RCode::YXRRSet => 7,
            RCode::NXRRSet => 8,
            RCode::NotAuth => 9,
            RCode::NotZone => 10,
            RCode::DSOTYPENI => 11,
            RCode::BADVERS => 16,
            RCode::BADSIG => 16,
            RCode::BADKEY => 17,
            RCode::BADTIME => 18,
            RCode::BADMODE => 19,
            RCode::BADNAME => 20,
            RCode::BADALG => 21,
            RCode::BADTRUNC => 22,
            RCode::BADCOOKIE => 23,
            RCode::Unknown(x) => x,
        }
    }

    pub fn from_u8(v: u8) -> (r: RCode)
        ensures
            r == RCode::spec_from_u8(v),
    {
        match v {
            0 => RCode::NoError,
            1 => RCode::FormatErr,
            2 => RCode::ServFail,
            3 => RCode::NXDomain,
            4 => RCode::NotImp,
            5 => RCode::Refused,
            6 => RCode::YXDomain,
            7 => RCode::YXRRSet,
            8 => RCode::NXRRSet,
            9 => RCode::NotAuth,
            10 => RCode::NotZone,
            11 => RCode::DSOTYPENI,
            16 => RCode::BADSIG,
            17 => RCode::BADKEY,
            18 => RCode::BADTIME,
            19 => RCode::BADMODE,
            20 => RCode::BADNAME,
            21 => RCode::BADALG,
            22 => RCode::BADTRUNC,
            23 => RCode::BADCOOKIE,
            _ => RCode::Unknown(v),
        }
    }

    pub fn to_u8(&self) -> (r: u8)
        ensures
            r == self.spec_to_u8(),
    {
        match self {
            RCode::NoError => 0,
            RCode::FormatErr => 1,
            RCode::ServFail => 2,
            RCode::NXDomain => 3,
            RCode::NotImp => 4,
            RCode::Refused => 5,
            RCode::YXDomain => 6,
            RCode::YXRRSet => 7,
            RCode::NXRRSet => 8,
            RCode::NotAuth => 9,
            RCode::NotZone => 10,
            RCode::DSOTYPENI => 11,
            RCode::BADVERS => 16,
            RCode::BADSIG => 16,
            RCode::BADKEY => 17,
            RCode::BADTIME => 18,
            RCode::BADMODE => 19,
            RCode::BADNAME => 20,
            RCode::BADALG => 21,
            RCode::BADTRUNC => 22,
            RCode::BADCOOKIE => 23,
            RCode::Unknown(x) => *x,
        }
    }
}

/// Every wire value survives reading it as a code and writing the code back, whether or not it
/// names a known code.
pub proof fn lemma_codes_round_trip(v16: u16, v8: u8)
    ensures
        Type::spec_from_u16(v16).spec_to_u16() == v16,
        Class::spec_from_u16(v16).spec_to_u16() == v16,
        OptionCode::spec_from_u16(v16).spec_to_u16() == v16,
        OpCode::spec_from_u8(v8).spec_to_u8() == v8,
        RCode::spec_from_u8(v8).spec_to_u8() == v8,
{
}

} // verus!
