//! A codec for DNS messages: reads a received buffer into a structured message and writes a
//! message back into bytes.
pub mod codes;
pub mod domain_name;
pub mod header;
pub mod packet;
pub mod parser;
pub mod question;
pub mod round_trip;
pub mod rr;
pub mod serializer;

pub use crate::parser::{Parse, ParseError, Parser};
pub use crate::serializer::{Serialize, SerializeError, Serializer};
pub use crate::domain_name::DomainName;
pub use crate::codes::{Class, OpCode, OptionCode, RCode, Type};
pub use crate::header::{Flags, Header};
pub use crate::question::Question;
pub use crate::packet::Packet;
pub use crate::rr::{Record, ResourceRecord};
