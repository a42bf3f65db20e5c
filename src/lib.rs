//! A DNS message codec (RFC 1035, section 4): header flag packing, domain names with
//! compression pointers, questions, resource records and whole messages.

pub mod bits;
pub mod codes;
pub mod cursor;
pub mod error;
pub mod flags;
pub mod name;
pub mod message;
pub mod record;

pub use bits::{pack, unpack};
pub use codes::{OPCODE, RCODE};
pub use cursor::DataWrapper;
pub use error::DecodeError;
pub use flags::Flags;
pub use name::{is_pointer, DNSLabel};
pub use message::DNSMessage;
pub use record::{DNSHeader, DNSQuery, DNSResource};
