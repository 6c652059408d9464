//! A verified codec for DNS messages in the RFC1035 wire format.
//!
//! The crate decodes and encodes a fixed 12-byte header, a question section,
//! and three resource-record sections (answer, authority, additional) out of
//! and into a fixed 512-byte buffer, the classic DNS UDP message size.
//! Domain names are read through the label-compression scheme: a bounded
//! number of pointer jumps guarantees termination on hostile input.

pub mod buffer;
pub mod errors;
pub mod header;
pub mod packet;
pub mod records;

pub use buffer::PacketBuffer;
pub use errors::DnsError;
pub use errors::Section;
pub use header::Header;
pub use header::Opcode;
pub use header::ResCode;
pub use packet::Packet;
pub use records::Ipv4Address;
pub use records::Ipv6Address;
pub use records::Question;
pub use records::Record;
pub use records::RecordType;
